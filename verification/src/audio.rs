//! The voice engine: admits triggers as voices under a polyphony cap and
//! lays out, block by block, which frames of which sample are to be mixed.
//!
//! The engine decides; it does no arithmetic on levels. What it hands to the
//! output stream is a plan: a list of spans, each a run of frames of one
//! sample with the factors of its gain. The stream multiplies, adds up and
//! clamps.

use crate::bank::BankReader;
use crate::level::{Level, ONE};
use crate::ring::{Trigger, TriggerConsumer, RING_BUFFER_SIZE};
use crate::samples::SampleBank;
use crate::voice::{source_channel, Gain, MixSpan, Voice};
use std::sync::Arc;
use vstd::prelude::*;

verus! {

/// How many of the oldest voices give way when `incoming` triggers arrive
/// while `have` voices play under a cap of `max_voices`: as many as the sum
/// exceeds the cap by, and no more than there are.
pub open spec fn steal_count(have: nat, incoming: nat, max_voices: nat) -> nat {
    if incoming == 0 || have + incoming <= max_voices {
        0
    } else if have + incoming - max_voices < have {
        (have + incoming - max_voices) as nat
    } else {
        have
    }
}

/// `Vec::drain` over the range up to `count`, with the iterator dropped at
/// once: the first `count` elements leave the vector in one move, the others
/// keep their order. `count` may not exceed the length.
#[verifier::external_body]
fn drain_front(voices: &mut Vec<Voice>, count: usize)
    requires
        count <= old(voices)@.len(),
    ensures
        final(voices)@ == old(voices)@.skip(count as int),
{
    voices.drain(..count);
}

/// Removes the oldest voices to make room for `incoming` triggers.
pub fn steal_oldest(voices: &mut Vec<Voice>, incoming: usize, max_voices: usize)
    ensures
        final(voices)@ == old(voices)@.skip(
            steal_count(old(voices)@.len(), incoming as nat, max_voices as nat) as int,
        ),
{
    let have: usize = voices.len();
    let to_steal: usize = if incoming == 0 {
        0
    } else if have <= max_voices {
        let room: usize = max_voices - have;
        if incoming <= room {
            0
        } else if incoming - room < have {
            incoming - room
        } else {
            have
        }
    } else if incoming < max_voices {
        have - max_voices + incoming
    } else {
        have
    };
    if to_steal > 0 {
        drain_front(voices, to_steal);
    } else {
        assert(voices@.skip(0) =~= voices@);
    }
}

/// The gain of sample `id` in `bank`; one where the bank lists none.
pub open spec fn bank_gain(bank: SampleBank, id: int) -> Level {
    if 0 <= id < bank.sample_gains@.len() {
        bank.sample_gains@[id]
    } else {
        ONE
    }
}

/// Whether `bank` has a sample for `trigger`.
pub open spec fn playable(bank: SampleBank, trigger: Trigger) -> bool {
    (trigger.sample_id as int) < bank.samples@.len()
}

/// The voice that a playable trigger starts.
pub open spec fn new_voice(trigger: Trigger, bank: SampleBank, master_volume: Level) -> Voice {
    Voice {
        sample_id: trigger.sample_id,
        position: 0,
        gain: Gain {
            sample_gain: bank_gain(bank, trigger.sample_id as int),
            velocity: trigger.velocity,
            master_volume,
        },
        sample_data: bank.samples@[trigger.sample_id as int],
    }
}

/// The voices started by `triggers` when there is room for `room` more:
/// one for each playable trigger, in order, until the room is used up.
pub open spec fn spawned(
    triggers: Seq<Trigger>,
    bank: SampleBank,
    master_volume: Level,
    room: nat,
) -> Seq<Voice> {
    let wanted = triggers.filter(|t: Trigger| playable(bank, t));
    let granted = if wanted.len() <= room {
        wanted
    } else {
        wanted.take(room as int)
    };
    granted.map_values(|t: Trigger| new_voice(t, bank, master_volume))
}

/// The room left under a cap of `max_voices` when `have` voices play.
pub open spec fn room_for(have: nat, max_voices: nat) -> nat {
    if have <= max_voices {
        (max_voices - have) as nat
    } else {
        0
    }
}

/// Starts a voice for each playable trigger while the cap allows.
pub fn spawn_voices(
    voices: &mut Vec<Voice>,
    triggers: &Vec<Trigger>,
    bank: &SampleBank,
    master_volume: Level,
    max_voices: usize,
)
    ensures
        final(voices)@ == old(voices)@ + spawned(
            triggers@,
            *bank,
            master_volume,
            room_for(old(voices)@.len(), max_voices as nat),
        ),
{
    let ghost wanted = |t: Trigger| playable(*bank, t);
    let ghost start = |t: Trigger| new_voice(t, *bank, master_volume);
    let ghost room = room_for(voices@.len(), max_voices as nat);
    let mut slots_remaining: usize = if voices.len() <= max_voices {
        max_voices - voices.len()
    } else {
        0
    };
    let mut i: usize = 0;
    proof {
        assert(triggers@.take(0).filter(wanted) =~= Seq::<Trigger>::empty()) by {
            reveal(Seq::filter);
        }
        assert(voices@ =~= old(voices)@ + Seq::<Trigger>::empty().map_values(start));
    }
    while i < triggers.len() && slots_remaining > 0
        invariant
            i <= triggers@.len(),
            wanted == (|t: Trigger| playable(*bank, t)),
            start == (|t: Trigger| new_voice(t, *bank, master_volume)),
            slots_remaining + triggers@.take(i as int).filter(wanted).len() == room,
            voices@ == old(voices)@ + triggers@.take(i as int).filter(wanted).map_values(start),
        decreases triggers@.len() - i,
    {
        let trigger: Trigger = triggers[i];
        let sid: usize = trigger.sample_id as usize;
        proof {
            let head = triggers@.take(i as int);
            assert(triggers@.take(i + 1) =~= head + seq![trigger]);
            Seq::filter_distributes_over_add(head, seq![trigger], wanted);
            assert(seq![trigger].filter(wanted) =~= if wanted(trigger) {
                seq![trigger]
            } else {
                Seq::empty()
            }) by {
                reveal_with_fuel(Seq::filter, 2);
                assert(seq![trigger].drop_last() =~= Seq::<Trigger>::empty());
            }
        }
        if sid < bank.samples.len() {
            let sample_gain: Level = if sid < bank.sample_gains.len() {
                bank.sample_gains[sid]
            } else {
                ONE
            };
            voices.push(
                Voice {
                    sample_id: trigger.sample_id,
                    position: 0,
                    gain: Gain { sample_gain, velocity: trigger.velocity, master_volume },
                    sample_data: Arc::clone(&bank.samples[sid]),
                },
            );
            slots_remaining -= 1;
            assert(voices@ =~= old(voices)@ + triggers@.take(i + 1).filter(wanted).map_values(
                start,
            ));
        }
        i += 1;
    }
    proof {
        let head = triggers@.take(i as int);
        let tail = triggers@.skip(i as int);
        assert(triggers@ =~= head + tail);
        Seq::filter_distributes_over_add(head, tail, wanted);
        let all = triggers@.filter(wanted);
        if i < triggers@.len() {
            assert(all.take(room as int) =~= head.filter(wanted));
        } else {
            assert(tail =~= Seq::<Trigger>::empty());
            assert(tail.filter(wanted) =~= Seq::<Trigger>::empty()) by {
                reveal(Seq::filter);
            }
            assert(all =~= head.filter(wanted));
        }
    }
}

/// Where every trigger is playable, the first triggers start voices, as
/// many as there is room for.
pub proof fn lemma_spawned_all(
    triggers: Seq<Trigger>,
    bank: SampleBank,
    master_volume: Level,
    room: nat,
)
    requires
        forall|k: int| 0 <= k < triggers.len() ==> playable(bank, #[trigger] triggers[k]),
    ensures
        spawned(triggers, bank, master_volume, room) == (if triggers.len() <= room {
            triggers
        } else {
            triggers.take(room as int)
        }).map_values(|t: Trigger| new_voice(t, bank, master_volume)),
{
    let wanted = |t: Trigger| playable(bank, t);
    lemma_filter_all(triggers, wanted);
}

/// A filter that every element passes changes nothing.
proof fn lemma_filter_all<T>(s: Seq<T>, pred: spec_fn(T) -> bool)
    requires
        forall|k: int| 0 <= k < s.len() ==> pred(#[trigger] s[k]),
    ensures
        s.filter(pred) == s,
    decreases s.len(),
{
    reveal(Seq::filter);
    if s.len() > 0 {
        lemma_filter_all(s.drop_last(), pred);
        assert(s.drop_last().push(s.last()) =~= s);
    }
}

/// The voice list after `triggers` have been admitted: the oldest voices
/// stolen, the new ones appended.
pub open spec fn admitted(
    voices: Seq<Voice>,
    triggers: Seq<Trigger>,
    bank: SampleBank,
    master_volume: Level,
    max_voices: nat,
) -> Seq<Voice> {
    let kept = voices.skip(steal_count(voices.len(), triggers.len(), max_voices) as int);
    kept + spawned(triggers, bank, master_volume, room_for(kept.len(), max_voices))
}

/// Admits the triggers of one block: steals the oldest voices where the cap
/// would be exceeded, then starts the new ones.
pub fn admit_triggers(
    voices: &mut Vec<Voice>,
    triggers: &Vec<Trigger>,
    bank: &SampleBank,
    master_volume: Level,
    max_voices: usize,
)
    ensures
        final(voices)@ == admitted(
            old(voices)@,
            triggers@,
            *bank,
            master_volume,
            max_voices as nat,
        ),
{
    steal_oldest(voices, triggers.len(), max_voices);
    spawn_voices(voices, triggers, bank, master_volume, max_voices);
}

/// With the cap exactly reached, one more trigger steals exactly the oldest
/// voice, and its own voice, if the bank has its sample, takes the last
/// place.
pub proof fn lemma_full_house_steals_oldest(
    voices: Seq<Voice>,
    trigger: Trigger,
    bank: SampleBank,
    master_volume: Level,
    max_voices: nat,
)
    requires
        voices.len() == max_voices,
        max_voices >= 1,
    ensures
        steal_count(voices.len(), 1, max_voices) == 1,
        admitted(voices, seq![trigger], bank, master_volume, max_voices) == if playable(
            bank,
            trigger,
        ) {
            voices.skip(1).push(new_voice(trigger, bank, master_volume))
        } else {
            voices.skip(1)
        },
{
    let triggers = seq![trigger];
    if playable(bank, trigger) {
        lemma_spawned_all(triggers, bank, master_volume, 1);
        assert(triggers.map_values(|t: Trigger| new_voice(t, bank, master_volume)) =~= seq![
            new_voice(trigger, bank, master_volume),
        ]);
        assert(admitted(voices, triggers, bank, master_volume, max_voices) =~= voices.skip(1).push(
            new_voice(trigger, bank, master_volume),
        ));
    } else {
        let wanted = |t: Trigger| playable(bank, t);
        assert(triggers.filter(wanted) =~= Seq::<Trigger>::empty()) by {
            reveal_with_fuel(Seq::filter, 2);
            assert(triggers.drop_last() =~= Seq::<Trigger>::empty());
        }
        assert(admitted(voices, triggers, bank, master_volume, max_voices) =~= voices.skip(1));
    }
}

/// Without triggers the voice list is admitted as it is.
pub proof fn lemma_admitted_without_triggers(
    voices: Seq<Voice>,
    bank: SampleBank,
    master_volume: Level,
    max_voices: nat,
)
    ensures
        admitted(voices, Seq::empty(), bank, master_volume, max_voices) == voices,
{
    reveal(Seq::filter);
    let none = Seq::<Trigger>::empty();
    assert(none.filter(|t: Trigger| playable(bank, t)) =~= none);
    assert(admitted(voices, none, bank, master_volume, max_voices) =~= voices);
}

/// Admission keeps the cap: once triggers arrive, or where the cap was kept
/// before, no more than `max_voices` voices are admitted.
pub proof fn lemma_admitted_keeps_cap(
    voices: Seq<Voice>,
    triggers: Seq<Trigger>,
    bank: SampleBank,
    master_volume: Level,
    max_voices: nat,
)
    requires
        voices.len() <= max_voices || triggers.len() > 0,
    ensures
        admitted(voices, triggers, bank, master_volume, max_voices).len() <= max_voices,
{
    let wanted = triggers.filter(|t: Trigger| playable(bank, t));
    if triggers.len() == 0 {
        reveal(Seq::filter);
        assert(wanted.len() == 0);
    }
}

/// A sequence with the element at `i` replaced by the last one, and the last
/// one dropped.
pub open spec fn swap_removed<T>(s: Seq<T>, i: int) -> Seq<T> {
    s.update(i, s.last()).drop_last()
}

/// One mixing pass over the voices from index `i` on, for a block of `frames`
/// frames: the voices that remain, and the spans to mix in the order in
/// which the pass visits the voices. A voice with no frames left is removed;
/// every other voice contributes a span and either moves on or, if it
/// reaches the end of its sample, is removed. Removal puts the last voice in
/// the place of the removed one, and the pass goes on with that voice.
pub open spec fn mix_from(voices: Seq<Voice>, i: int, frames: nat) -> (Seq<Voice>, Seq<MixSpan>)
    decreases voices.len() - i,
{
    if i < 0 || i >= voices.len() {
        (voices, Seq::empty())
    } else if !voices[i].is_live() {
        mix_from(swap_removed(voices, i), i, frames)
    } else if voices[i].finishes(frames) {
        let rest = mix_from(swap_removed(voices, i), i, frames);
        (rest.0, seq![voices[i].span(frames)] + rest.1)
    } else {
        let rest = mix_from(voices.update(i, voices[i].advanced(frames)), i + 1, frames);
        (rest.0, seq![voices[i].span(frames)] + rest.1)
    }
}

/// Runs one mixing pass over `voices` for a block of `frames` frames and
/// writes the spans to mix into `plan`.
pub fn mix_voices(voices: &mut Vec<Voice>, frames: usize, plan: &mut Vec<MixSpan>)
    ensures
        (final(voices)@, final(plan)@) == mix_from(old(voices)@, 0, frames as nat),
        final(voices)@.len() <= old(voices)@.len(),
        final(plan)@.len() <= old(voices)@.len(),
        forall|k: int| 0 <= k < final(voices)@.len() ==> (#[trigger] final(voices)@[k]).is_live(),
        forall|k: int| 0 <= k < final(plan)@.len() ==> (#[trigger] final(plan)@[k]).fits(frames as nat),
{
    proof {
        lemma_mix_from(voices@, 0, frames as nat);
    }
    plan.clear();
    let mut i: usize = 0;
    while i < voices.len()
        invariant
            i <= voices@.len(),
            mix_from(old(voices)@, 0, frames as nat).0 == mix_from(voices@, i as int, frames as nat).0,
            mix_from(old(voices)@, 0, frames as nat).1 == plan@ + mix_from(
                voices@,
                i as int,
                frames as nat,
            ).1,
        decreases voices@.len() - i,
    {
        let sample_frames: usize = voices[i].sample_data.num_frames();
        let position: usize = voices[i].position;
        if position >= sample_frames {
            voices.swap_remove(i);
        } else {
            let left: usize = sample_frames - position;
            let frames_to_mix: usize = if left < frames { left } else { frames };
            let ghost before = voices@;
            let ghost span = voices@[i as int].span(frames as nat);
            if frames >= left {
                let voice = voices.swap_remove(i);
                plan.push(
                    MixSpan {
                        sample_data: voice.sample_data,
                        gain: voice.gain,
                        start: position,
                        frames: frames_to_mix,
                    },
                );
            } else {
                plan.push(
                    MixSpan {
                        sample_data: Arc::clone(&voices[i].sample_data),
                        gain: voices[i].gain,
                        start: position,
                        frames: frames_to_mix,
                    },
                );
                voices[i].position = position + frames_to_mix;
                assert(voices@ =~= before.update(i as int, before[i as int].advanced(frames as nat)));
                i += 1;
            }
            assert(plan@.last() == span);
        }
    }
}

/// What a mixing pass leaves behind: no more voices than there were, each
/// with frames left to play; no more spans than voices it visited, each
/// fitting the block and its sample. Every voice from `i` on that had frames
/// left has its span in the plan.
pub proof fn lemma_mix_from(voices: Seq<Voice>, i: int, frames: nat)
    requires
        0 <= i <= voices.len(),
        forall|j: int| 0 <= j < i ==> (#[trigger] voices[j]).is_live(),
    ensures
        mix_from(voices, i, frames).0.len() <= voices.len(),
        mix_from(voices, i, frames).1.len() <= voices.len() - i,
        forall|k: int|
            0 <= k < mix_from(voices, i, frames).0.len() ==> (#[trigger] mix_from(
                voices,
                i,
                frames,
            ).0[k]).is_live(),
        forall|k: int|
            0 <= k < mix_from(voices, i, frames).1.len() ==> (#[trigger] mix_from(
                voices,
                i,
                frames,
            ).1[k]).fits(frames),
        forall|j: int|
            i <= j < voices.len() && (#[trigger] voices[j]).is_live() ==> mix_from(
                voices,
                i,
                frames,
            ).1.contains(voices[j].span(frames)),
    decreases voices.len() - i,
{
    if i < voices.len() {
        let voice = voices[i];
        let removed = swap_removed(voices, i);
        let moved = voices.update(i, voice.advanced(frames));
        if !voice.is_live() {
            lemma_mix_from(removed, i, frames);
            let plan = mix_from(removed, i, frames).1;
            assert forall|j: int| i <= j < voices.len() && (#[trigger] voices[j]).is_live() implies plan.contains(
                voices[j].span(frames),
            ) by {
                let at = if j == voices.len() - 1 {
                    i
                } else {
                    j
                };
                assert(removed[at] == voices[j]);
            }
        } else if voice.finishes(frames) {
            lemma_mix_from(removed, i, frames);
            let rest = mix_from(removed, i, frames).1;
            let plan = seq![voice.span(frames)] + rest;
            assert forall|k: int| 0 <= k < plan.len() implies (#[trigger] plan[k]).fits(frames) by {
                if k > 0 {
                    assert(plan[k] == rest[k - 1]);
                }
            }
            assert forall|j: int| i <= j < voices.len() && (#[trigger] voices[j]).is_live() implies plan.contains(
                voices[j].span(frames),
            ) by {
                if j == i {
                    assert(plan[0] == voice.span(frames));
                } else {
                    let at = if j == voices.len() - 1 {
                        i
                    } else {
                        j
                    };
                    assert(removed[at] == voices[j]);
                    let k = choose|k: int| 0 <= k < rest.len() && rest[k] == voices[j].span(frames);
                    assert(plan[k + 1] == voices[j].span(frames));
                }
            }
        } else {
            assert(moved[i].is_live());
            lemma_mix_from(moved, i + 1, frames);
            let rest = mix_from(moved, i + 1, frames).1;
            let plan = seq![voice.span(frames)] + rest;
            assert forall|k: int| 0 <= k < plan.len() implies (#[trigger] plan[k]).fits(frames) by {
                if k > 0 {
                    assert(plan[k] == rest[k - 1]);
                }
            }
            assert forall|j: int| i <= j < voices.len() && (#[trigger] voices[j]).is_live() implies plan.contains(
                voices[j].span(frames),
            ) by {
                if j == i {
                    assert(plan[0] == voice.span(frames));
                } else {
                    assert(moved[j] == voices[j]);
                    let k = choose|k: int| 0 <= k < rest.len() && rest[k] == voices[j].span(frames);
                    assert(plan[k + 1] == voices[j].span(frames));
                }
            }
        }
    }
}

/// The voices from `i` on advanced by a block, the others as they are.
pub open spec fn advanced_from(voices: Seq<Voice>, i: int, frames: nat) -> Seq<Voice> {
    Seq::new(
        voices.len(),
        |k: int|
            if k >= i {
                voices[k].advanced(frames)
            } else {
                voices[k]
            },
    )
}

/// The spans of the voices from `i` on, in their order.
pub open spec fn spans_from(voices: Seq<Voice>, i: int, frames: nat) -> Seq<MixSpan> {
    Seq::new((voices.len() - i) as nat, |k: int| voices[i + k].span(frames))
}

/// A block in which no voice ends keeps every voice in its place: each
/// moves on by the block and contributes its span, in the order of the
/// voice list.
pub proof fn lemma_mix_steady(voices: Seq<Voice>, i: int, frames: nat)
    requires
        0 <= i <= voices.len(),
        forall|k: int|
            i <= k < voices.len() ==> (#[trigger] voices[k]).is_live() && !voices[k].finishes(
                frames,
            ),
    ensures
        mix_from(voices, i, frames) == (
            advanced_from(voices, i, frames),
            spans_from(voices, i, frames),
        ),
    decreases voices.len() - i,
{
    if i < voices.len() {
        let moved = voices.update(i, voices[i].advanced(frames));
        assert forall|k: int| i + 1 <= k < moved.len() implies (#[trigger] moved[k]).is_live()
            && !moved[k].finishes(frames) by {
            assert(moved[k] == voices[k]);
        }
        lemma_mix_steady(moved, i + 1, frames);
        assert(advanced_from(moved, i + 1, frames) =~= advanced_from(voices, i, frames));
        assert(seq![voices[i].span(frames)] + spans_from(moved, i + 1, frames) =~= spans_from(
            voices,
            i,
            frames,
        ));
    } else {
        assert(advanced_from(voices, i, frames) =~= voices);
        assert(spans_from(voices, i, frames) =~= Seq::<MixSpan>::empty());
    }
}

/// What one block does to the voice list, given the triggers that arrived
/// and the bank that was current: the voices that play on, and the spans to
/// mix into a block of `frames` frames.
pub open spec fn block_result(
    voices: Seq<Voice>,
    triggers: Seq<Trigger>,
    bank: SampleBank,
    master_volume: Level,
    max_voices: nat,
    frames: nat,
) -> (Seq<Voice>, Seq<MixSpan>) {
    mix_from(admitted(voices, triggers, bank, master_volume, max_voices), 0, frames)
}

/// Renders one block from the triggers that were drained and the bank that
/// was loaded for it.
pub fn render_block(
    voices: &mut Vec<Voice>,
    triggers: &Vec<Trigger>,
    bank: &SampleBank,
    master_volume: Level,
    max_voices: usize,
    frames: usize,
    plan: &mut Vec<MixSpan>,
)
    ensures
        (final(voices)@, final(plan)@) == block_result(
            old(voices)@,
            triggers@,
            *bank,
            master_volume,
            max_voices as nat,
            frames as nat,
        ),
        old(voices)@.len() <= max_voices || triggers@.len() > 0 ==> final(voices)@.len()
            <= max_voices && final(plan)@.len() <= max_voices,
        forall|k: int| 0 <= k < final(voices)@.len() ==> (#[trigger] final(voices)@[k]).is_live(),
        forall|k: int| 0 <= k < final(plan)@.len() ==> (#[trigger] final(plan)@[k]).fits(frames as nat),
{
    proof {
        lemma_block_keeps_cap(
            voices@,
            triggers@,
            *bank,
            master_volume,
            max_voices as nat,
            frames as nat,
        );
    }
    admit_triggers(voices, triggers, bank, master_volume, max_voices);
    mix_voices(voices, frames, plan);
}

/// The polyphony cap holds after every block that begins within it or
/// brings triggers, and the block has no more spans than the cap allows
/// voices.
pub proof fn lemma_block_keeps_cap(
    voices: Seq<Voice>,
    triggers: Seq<Trigger>,
    bank: SampleBank,
    master_volume: Level,
    max_voices: nat,
    frames: nat,
)
    ensures
        voices.len() <= max_voices || triggers.len() > 0 ==> block_result(
            voices,
            triggers,
            bank,
            master_volume,
            max_voices,
            frames,
        ).0.len() <= max_voices && block_result(
            voices,
            triggers,
            bank,
            master_volume,
            max_voices,
            frames,
        ).1.len() <= max_voices,
{
    if voices.len() <= max_voices || triggers.len() > 0 {
        lemma_admitted_keeps_cap(voices, triggers, bank, master_volume, max_voices);
        lemma_mix_from(admitted(voices, triggers, bank, master_volume, max_voices), 0, frames);
    }
}

/// A bank swap does not reach the voices that are already playing: a voice
/// that has frames left and is not stolen contributes the same span to the
/// block whichever bank the block's triggers are admitted against.
pub proof fn lemma_playing_voice_ignores_bank(
    voices: Seq<Voice>,
    j: int,
    triggers: Seq<Trigger>,
    bank_a: SampleBank,
    bank_b: SampleBank,
    master_volume: Level,
    max_voices: nat,
    frames: nat,
)
    requires
        steal_count(voices.len(), triggers.len(), max_voices) <= j < voices.len(),
        voices[j].is_live(),
    ensures
        block_result(voices, triggers, bank_a, master_volume, max_voices, frames).1.contains(
            voices[j].span(frames),
        ),
        block_result(voices, triggers, bank_b, master_volume, max_voices, frames).1.contains(
            voices[j].span(frames),
        ),
{
    let stolen = steal_count(voices.len(), triggers.len(), max_voices) as int;
    let with_a = admitted(voices, triggers, bank_a, master_volume, max_voices);
    let with_b = admitted(voices, triggers, bank_b, master_volume, max_voices);
    assert(with_a[j - stolen] == voices[j]);
    assert(with_b[j - stolen] == voices[j]);
    lemma_mix_from(with_a, 0, frames);
    lemma_mix_from(with_b, 0, frames);
}

/// One trigger into silence: the block plays the trigger's sample from its
/// first frame, with the gain of that sample in the bank, the trigger's
/// velocity and the master volume as factors, for as many frames as the
/// block and the sample both have. Frame by frame the block reads the
/// sample's frame of the same number. A sample without frames gives no span
/// and leaves no voice, and so do a trigger for a sample that the bank does
/// not have and a cap of no voices.
pub proof fn lemma_single_trigger(
    trigger: Trigger,
    bank: SampleBank,
    master_volume: Level,
    max_voices: nat,
    frames: nat,
)
    ensures
        ({
            let voice = new_voice(trigger, bank, master_volume);
            let result = block_result(
                Seq::empty(),
                seq![trigger],
                bank,
                master_volume,
                max_voices,
                frames,
            );
            if !playable(bank, trigger) || max_voices == 0 || voice.sample_data.frames() == 0 {
                result == (Seq::<Voice>::empty(), Seq::<MixSpan>::empty())
            } else {
                &&& result.1 == seq![voice.span(frames)]
                &&& result.1[0].sample_data == bank.samples@[trigger.sample_id as int]
                &&& result.1[0].gain.sample_gain == bank_gain(bank, trigger.sample_id as int)
                &&& result.1[0].gain.velocity == trigger.velocity
                &&& result.1[0].gain.master_volume == master_volume
                &&& result.1[0].start == 0
                &&& result.1[0].frames == if voice.sample_data.frames() < frames {
                    voice.sample_data.frames()
                } else {
                    frames
                }
                &&& forall|frame: int, channel: int| #[trigger]
                    result.1[0].source_index_of(frame, channel) == frame
                        * voice.sample_data.channels + source_channel(
                        channel,
                        voice.sample_data.channels as int,
                    )
                &&& result.0 == if voice.finishes(frames) {
                    Seq::<Voice>::empty()
                } else {
                    seq![voice.advanced(frames)]
                }
            }
        }),
{
    let voice = new_voice(trigger, bank, master_volume);
    let triggers = seq![trigger];
    let start = |t: Trigger| new_voice(t, bank, master_volume);
    let voices = admitted(Seq::empty(), triggers, bank, master_volume, max_voices);
    reveal_with_fuel(mix_from, 3);
    let none = Seq::<Voice>::empty();
    assert(mix_from(none, 0, frames) == (none, Seq::<MixSpan>::empty()));
    if !playable(bank, trigger) {
        let wanted = |t: Trigger| playable(bank, t);
        assert(triggers.filter(wanted) =~= Seq::<Trigger>::empty()) by {
            reveal_with_fuel(Seq::filter, 2);
            assert(triggers.drop_last() =~= Seq::<Trigger>::empty());
        }
        assert(voices =~= none);
    } else if max_voices == 0 {
        lemma_spawned_all(triggers, bank, master_volume, max_voices);
        assert(triggers.take(0).map_values(start) =~= none);
        assert(voices =~= none);
    } else {
        lemma_spawned_all(triggers, bank, master_volume, max_voices);
        assert(triggers.map_values(start) =~= seq![voice]);
        assert(voices =~= seq![voice]);
        let span = voice.span(frames);
        let result = mix_from(voices, 0, frames);
        assert(swap_removed(voices, 0) =~= none);
        assert(seq![span] + Seq::<MixSpan>::empty() =~= seq![span]);
        if !voice.is_live() {
            assert(result == mix_from(none, 0, frames));
        } else if voice.finishes(frames) {
            assert(result.1 == seq![span]);
            assert(result.0 == none);
        } else {
            let moved = voices.update(0, voice.advanced(frames));
            assert(moved =~= seq![voice.advanced(frames)]);
            assert(mix_from(moved, 1, frames) == (moved, Seq::<MixSpan>::empty()));
            assert(result.1 == seq![span]);
            assert(result.0 == moved);
        }
    }
}

/// Two triggers on the same sample, arriving together in silence, give
/// twice what one of them gives: the same span two times. A cap of one voice
/// leaves no room for the second.
pub proof fn lemma_stacked_triggers(
    trigger: Trigger,
    bank: SampleBank,
    master_volume: Level,
    max_voices: nat,
    frames: nat,
)
    requires
        max_voices != 1,
    ensures
        ({
            let single = block_result(
                Seq::empty(),
                seq![trigger],
                bank,
                master_volume,
                max_voices,
                frames,
            ).1;
            block_result(
                Seq::empty(),
                seq![trigger, trigger],
                bank,
                master_volume,
                max_voices,
                frames,
            ).1 == single + single
        }),
{
    let voice = new_voice(trigger, bank, master_volume);
    let triggers = seq![trigger, trigger];
    let start = |t: Trigger| new_voice(t, bank, master_volume);
    let voices = admitted(Seq::empty(), triggers, bank, master_volume, max_voices);
    let none = Seq::<MixSpan>::empty();
    let silence = Seq::<Voice>::empty();
    lemma_single_trigger(trigger, bank, master_volume, max_voices, frames);
    reveal_with_fuel(mix_from, 4);
    assert(none + none =~= none);
    if !playable(bank, trigger) {
        let wanted = |t: Trigger| playable(bank, t);
        assert(triggers.filter(wanted) =~= Seq::<Trigger>::empty()) by {
            reveal_with_fuel(Seq::filter, 3);
            assert(triggers.drop_last() =~= seq![trigger]);
            assert(seq![trigger].drop_last() =~= Seq::<Trigger>::empty());
        }
        assert(voices =~= silence);
    } else if max_voices == 0 {
        lemma_spawned_all(triggers, bank, master_volume, max_voices);
        assert(triggers.take(0).map_values(start) =~= silence);
        assert(voices =~= silence);
    } else {
        lemma_spawned_all(triggers, bank, master_volume, max_voices);
        assert(triggers.map_values(start) =~= seq![voice, voice]);
        assert(voices =~= seq![voice, voice]);
        let span = voice.span(frames);
        assert(seq![span] + (seq![span] + none) =~= seq![span] + seq![span]);
        assert(swap_removed(voices, 0) =~= seq![voice]);
        assert(swap_removed(seq![voice], 0) =~= silence);
        if !voice.is_live() {
        } else if voice.finishes(frames) {
        } else {
            let first = voices.update(0, voice.advanced(frames));
            assert(first[1] == voice);
        }
    }
}

/// The audio callback, up to the arithmetic on levels: drains the channel
/// into `trigger_buf`, admits those triggers against the bank of the moment,
/// advances every voice by the block and leaves in `plan` what is to be
/// mixed. The block has `data_len / output_channels` frames.
///
/// It takes no lock and allocates nothing as long as `trigger_buf` has room
/// for the channel's capacity and `voices` and `plan` for `max_voices`.
pub fn audio_callback(
    data_len: usize,
    output_channels: usize,
    consumer: &mut TriggerConsumer,
    trigger_buf: &mut Vec<Trigger>,
    voices: &mut Vec<Voice>,
    sample_bank: &BankReader,
    master_volume: Level,
    max_voices: usize,
    plan: &mut Vec<MixSpan>,
)
    requires
        output_channels > 0,
    ensures
        final(trigger_buf)@.len() <= RING_BUFFER_SIZE,
        final(consumer).taken() == old(consumer).taken() + final(trigger_buf)@,
        old(consumer).ready().len() <= RING_BUFFER_SIZE ==> old(consumer).ready() == final(trigger_buf)@.take(old(consumer).ready().len() as int),
        final(trigger_buf)@.len() < RING_BUFFER_SIZE ==> final(consumer).ready().len() == 0,
        exists|bank: SampleBank|
            (final(voices)@, final(plan)@) == #[trigger] block_result(
                old(voices)@,
                final(trigger_buf)@,
                bank,
                master_volume,
                max_voices as nat,
                (data_len / output_channels) as nat,
            ),
        old(voices)@.len() <= max_voices || final(trigger_buf)@.len() > 0 ==> final(voices)@.len()
            <= max_voices && final(plan)@.len() <= max_voices,
        forall|k: int| 0 <= k < final(voices)@.len() ==> (#[trigger] final(voices)@[k]).is_live(),
        forall|k: int|
            0 <= k < final(plan)@.len() ==> (#[trigger] final(plan)@[k]).fits(
                (data_len / output_channels) as nat,
            ),
{
    consumer.drain(trigger_buf);
    let frames: usize = data_len / output_channels;
    if !trigger_buf.is_empty() {
        let bank = sample_bank.load();
        render_block(voices, trigger_buf, &bank, master_volume, max_voices, frames, plan);
    } else {
        let ghost before = voices@;
        mix_voices(voices, frames, plan);
        proof {
            let bank: SampleBank = arbitrary();
            lemma_admitted_without_triggers(before, bank, master_volume, max_voices as nat);
            assert((voices@, plan@) == block_result(
                before,
                trigger_buf@,
                bank,
                master_volume,
                max_voices as nat,
                frames as nat,
            ));
        }
    }
}

/// Configuration for the audio engine.
pub struct AudioEngineConfig {
    /// Where the engine reads the current bank.
    pub sample_bank: BankReader,
    /// Maximum number of simultaneous voices.
    pub max_voices: usize,
    /// Master volume, a level between zero and one.
    pub master_volume: Level,
}

/// The state that the audio callback keeps from block to block: the voices
/// and the buffers it reuses, all allocated before the first block.
pub struct AudioEngine {
    config: AudioEngineConfig,
    consumer: TriggerConsumer,
    trigger_buf: Vec<Trigger>,
    voices: Vec<Voice>,
    plan: Vec<MixSpan>,
}

impl AudioEngine {
    /// What holds of the engine between blocks: the cap is kept and every
    /// voice has frames left.
    pub closed spec fn well_formed(&self) -> bool {
        &&& self.voices@.len() <= self.config.max_voices
        &&& forall|k: int| 0 <= k < self.voices@.len() ==> (#[trigger] self.voices@[k]).is_live()
    }

    /// The voices that are playing, oldest first as far as removals have
    /// kept the order.
    pub closed spec fn voices_view(&self) -> Seq<Voice> {
        self.voices@
    }

    /// The spans of the last block.
    pub closed spec fn plan_view(&self) -> Seq<MixSpan> {
        self.plan@
    }

    /// The triggers that the last block drained.
    pub closed spec fn triggers_view(&self) -> Seq<Trigger> {
        self.trigger_buf@
    }

    /// The triggers that the engine's consumer has seen published and has
    /// not yet taken.
    pub closed spec fn ready_view(&self) -> Seq<Trigger> {
        self.consumer.ready()
    }

    /// The triggers that the engine's consumer has taken so far.
    pub closed spec fn taken_view(&self) -> Seq<Trigger> {
        self.consumer.taken()
    }

    /// The polyphony cap.
    pub closed spec fn max_voices_view(&self) -> usize {
        self.config.max_voices
    }

    /// The master volume.
    pub closed spec fn master_volume_view(&self) -> Level {
        self.config.master_volume
    }

    /// A silent engine that takes its triggers from `consumer`.
    pub fn new(config: AudioEngineConfig, consumer: TriggerConsumer) -> (engine: AudioEngine)
        ensures
            engine.well_formed(),
            engine.voices_view() == Seq::<Voice>::empty(),
            engine.plan_view() == Seq::<MixSpan>::empty(),
            engine.max_voices_view() == config.max_voices,
            engine.master_volume_view() == config.master_volume,
            engine.ready_view() == consumer.ready(),
            engine.taken_view() == consumer.taken(),
    {
        let voices: Vec<Voice> = Vec::with_capacity(config.max_voices);
        let plan: Vec<MixSpan> = Vec::with_capacity(config.max_voices);
        let trigger_buf: Vec<Trigger> = Vec::with_capacity(RING_BUFFER_SIZE);
        AudioEngine { config, consumer, trigger_buf, voices, plan }
    }

    /// Runs the audio callback for a block of `data_len` levels in
    /// `output_channels` channels.
    pub fn process(&mut self, data_len: usize, output_channels: usize)
        requires
            old(self).well_formed(),
            output_channels > 0,
        ensures
            final(self).well_formed(),
            final(self).max_voices_view() == old(self).max_voices_view(),
            final(self).master_volume_view() == old(self).master_volume_view(),
            final(self).triggers_view().len() <= RING_BUFFER_SIZE,
            final(self).taken_view() == old(self).taken_view() + final(self).triggers_view(),
            old(self).ready_view().len() <= RING_BUFFER_SIZE ==> old(self).ready_view() == final(self).triggers_view().take(old(self).ready_view().len() as int),
            final(self).triggers_view().len() < RING_BUFFER_SIZE ==> final(self).ready_view().len()
                == 0,
            exists|bank: SampleBank|
                (final(self).voices_view(), final(self).plan_view()) == #[trigger] block_result(
                    old(self).voices_view(),
                    final(self).triggers_view(),
                    bank,
                    old(self).master_volume_view(),
                    old(self).max_voices_view() as nat,
                    (data_len / output_channels) as nat,
                ),
            final(self).voices_view().len() <= final(self).max_voices_view(),
            final(self).plan_view().len() <= final(self).max_voices_view(),
            forall|k: int|
                0 <= k < final(self).voices_view().len() ==> (
                #[trigger] final(self).voices_view()[k]).is_live(),
            forall|k: int|
                0 <= k < final(self).plan_view().len() ==> (#[trigger] final(self).plan_view()[k]).fits(
                    (data_len / output_channels) as nat,
                ),
    {
        let ghost before = self.voices@;
        audio_callback(
            data_len,
            output_channels,
            &mut self.consumer,
            &mut self.trigger_buf,
            &mut self.voices,
            &self.config.sample_bank,
            self.config.master_volume,
            self.config.max_voices,
            &mut self.plan,
        );
        proof {
            let bank = choose|bank: SampleBank|
                (self.voices@, self.plan@) == #[trigger] block_result(
                    before,
                    self.trigger_buf@,
                    bank,
                    self.config.master_volume,
                    self.config.max_voices as nat,
                    (data_len / output_channels) as nat,
                );
            assert((self.voices_view(), self.plan_view()) == block_result(
                old(self).voices_view(),
                self.triggers_view(),
                bank,
                old(self).master_volume_view(),
                old(self).max_voices_view() as nat,
                (data_len / output_channels) as nat,
            ));
        }
    }

    /// The spans to mix for the last block, in mixing order.
    pub fn plan(&self) -> (plan: &Vec<MixSpan>)
        ensures
            plan@ == self.plan_view(),
    {
        &self.plan
    }

    /// The voices that are playing.
    pub fn voices(&self) -> (voices: &Vec<Voice>)
        ensures
            voices@ == self.voices_view(),
            self.well_formed() ==> voices@.len() <= self.max_voices_view(),
    {
        &self.voices
    }

    /// The master volume that new voices get.
    pub fn master_volume(&self) -> (volume: Level)
        ensures
            volume == self.master_volume_view(),
    {
        self.config.master_volume
    }
}

} // verus!
