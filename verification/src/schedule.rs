//! The message loop's decisions: how long it may sleep, which reminders to put on screen, where
//! a new notification goes, and what an answered one does to its reminder.
//!
//! The loop itself waits on Windows and opens windows; here it hands over what it knows (the
//! reminders, which of them are already on screen, the time) and gets back what to do.

use vstd::prelude::*;

use crate::notify::Outcome;
use crate::reminder::{due_after, views, Reminder, State};

verus! {

/// Waiting forever, when there is nothing due to wait for.
pub const INFINITE: u32 = 0xffff_ffff;

/// Never wait longer than this, in milliseconds, with a reminder pending. Waiting is measured in
/// ticks, which do not advance while the machine sleeps, so a reminder that came due during
/// sleep is delivered within a minute of waking. It also covers the user moving the clock.
pub const LONGEST_WAIT: u32 = 60_000;

/// Whether reminder `index` waits for the loop: pending and not already on screen.
pub open spec fn waiting(reminders: Seq<(u64, State, u32, Seq<char>)>, showing: Seq<usize>, index: int) -> bool {
    reminders[index].1 == State::Pending && !showing.contains(index as usize)
}

/// Whether reminder `index` is due now and not already on screen.
pub open spec fn to_show(reminders: Seq<(u64, State, u32, Seq<char>)>, showing: Seq<usize>, index: int, now: u64) -> bool {
    waiting(reminders, showing, index) && reminders[index].0 <= now
}

pub fn is_showing(showing: &Vec<usize>, index: usize) -> (b: bool)
    ensures
        b == showing@.contains(index),
{
    let mut i: usize = 0;
    while i < showing.len()
        invariant
            i <= showing@.len(),
            forall|j: int| 0 <= j < i ==> showing@[j] != index,
        decreases showing.len() - i,
    {
        if showing[i] == index {
            return true;
        }
        i += 1;
    }
    false
}

/// How long the loop may sleep, in milliseconds, before it must look at the reminders again:
/// forever with nothing waiting, not at all when something waiting is already due, and
/// otherwise until the earliest waiting one is due, but never more than a minute.
pub fn wait_milliseconds(reminders: &Vec<Reminder>, showing: &Vec<usize>, now: u64) -> (wait: u32)
    ensures
        ({
            let all = views(reminders@);
            &&& (forall|i: int| 0 <= i < all.len() ==> !waiting(all, showing@, i)) ==> wait == INFINITE
            &&& (exists|i: int| 0 <= i < all.len() && waiting(all, showing@, i)) ==> exists|i: int|
                #![trigger all[i]]
                0 <= i < all.len() && waiting(all, showing@, i) && (forall|j: int|
                    0 <= j < all.len() && waiting(all, showing@, j) ==> all[i].0 <= all[j].0)
                    && wait == (if all[i].0 <= now {
                    0
                } else if all[i].0 - now >= 60 {
                    LONGEST_WAIT as int
                } else {
                    (all[i].0 - now) * 1000
                })
        }),
{
    let ghost all = views(reminders@);
    let mut next: Option<usize> = None;
    let mut i: usize = 0;
    while i < reminders.len()
        invariant
            i <= reminders@.len(),
            all == views(reminders@),
            match next {
                None => forall|j: int| 0 <= j < i ==> !waiting(all, showing@, j),
                Some(k) => k < i && waiting(all, showing@, k as int) && forall|j: int|
                    0 <= j < i && waiting(all, showing@, j) ==> all[k as int].0 <= all[j].0,
            },
        decreases reminders.len() - i,
    {
        if reminders[i].state == State::Pending && !is_showing(showing, i) {
            match next {
                None => {
                    next = Some(i);
                },
                Some(k) => {
                    if reminders[i].due_unix < reminders[k].due_unix {
                        next = Some(i);
                    }
                },
            }
        }
        i += 1;
    }
    match next {
        None => INFINITE,
        Some(k) => {
            let due = reminders[k].due_unix;
            assert(all[k as int].0 == due);
            if due <= now {
                0
            } else if due - now >= 60 {
                LONGEST_WAIT
            } else {
                ((due - now) * 1000) as u32
            }
        },
    }
}

/// Every reminder that has come due and is not on screen yet, including ones that fell due
/// while the application was not running, in the order they are stored.
pub fn due_to_show(reminders: &Vec<Reminder>, showing: &Vec<usize>, now: u64) -> (due: Vec<usize>)
    ensures
        forall|k: int| 0 <= k < due@.len() ==> (#[trigger] due@[k]) < reminders@.len(),
        forall|k: int, l: int| 0 <= k < l < due@.len() ==> due@[k] < due@[l],
        forall|i: int|
            0 <= i < reminders@.len() ==> (due@.contains(i as usize) <==> #[trigger] to_show(
                views(reminders@),
                showing@,
                i,
                now,
            )),
{
    let ghost all = views(reminders@);
    let mut due: Vec<usize> = Vec::new();
    let mut i: usize = 0;
    while i < reminders.len()
        invariant
            i <= reminders@.len(),
            all == views(reminders@),
            forall|k: int| 0 <= k < due@.len() ==> (#[trigger] due@[k]) < i,
            forall|k: int, l: int| 0 <= k < l < due@.len() ==> due@[k] < due@[l],
            forall|j: int| 0 <= j < i ==> (due@.contains(j as usize) <==> #[trigger] to_show(all, showing@, j, now)),
        decreases reminders.len() - i,
    {
        if reminders[i].is_due(now) && !is_showing(showing, i) {
            let ghost before = due@;
            due.push(i);
            assert forall|j: int| 0 <= j <= i implies (due@.contains(j as usize) <==> #[trigger] to_show(
                all,
                showing@,
                j,
                now,
            )) by {
                if j < i {
                    if due@.contains(j as usize) {
                        let k = choose|k: int| 0 <= k < due@.len() && due@[k] == j as usize;
                        if k < before.len() {
                            assert(before.contains(j as usize));
                        }
                    }
                    if before.contains(j as usize) {
                        let k = choose|k: int| 0 <= k < before.len() && before[k] == j as usize;
                        assert(due@[k] == j as usize);
                    }
                } else {
                    assert(due@[due@.len() - 1] == i);
                    if before.contains(j as usize) {
                        let k = choose|k: int| 0 <= k < before.len() && before[k] == j as usize;
                        assert(before[k] < i);
                    }
                }
            }
        } else {
            assert(!to_show(all, showing@, i as int, now));
        }
        i += 1;
    }
    due
}

/// The lowest corner position no open notification is using.
pub fn free_slot(slots: &Vec<usize>) -> (slot: usize)
    requires
        slots@.len() < usize::MAX,
    ensures
        !slots@.contains(slot),
        forall|lower: usize| lower < slot ==> slots@.contains(lower),
        slot <= slots@.len(),
{
    let mut slot: usize = 0;
    while is_showing(slots, slot)
        invariant
            slots@.len() < usize::MAX,
            slot <= slots@.len(),
            forall|lower: usize| lower < slot ==> slots@.contains(lower),
        decreases slots@.len() - slot,
    {
        proof {
            lemma_slots_fill(slots@, slot);
        }
        slot += 1;
    }
    slot
}

/// When every slot below `slot` and `slot` itself are taken, there are more than `slot` of them.
proof fn lemma_slots_fill(slots: Seq<usize>, slot: usize)
    requires
        slots.contains(slot),
        forall|lower: usize| lower < slot ==> slots.contains(lower),
    ensures
        slot < slots.len(),
{
    let taken = Set::new(|s: usize| s <= slot);
    let held = slots.to_set();
    assert(taken.subset_of(held)) by {
        assert forall|s: usize| taken.contains(s) implies held.contains(s) by {
            if s < slot {
                assert(slots.contains(s));
            }
        }
    }
    lemma_range_size(slot);
    vstd::set_lib::lemma_len_subset(taken, held);
    slots.lemma_cardinality_of_set();
    vstd::seq_lib::seq_to_set_is_finite(slots);
}

proof fn lemma_range_size(slot: usize)
    ensures
        Set::new(|s: usize| s <= slot).finite(),
        Set::new(|s: usize| s <= slot).len() == slot + 1,
    decreases slot,
{
    let taken = Set::new(|s: usize| s <= slot);
    if slot == 0 {
        assert(taken =~= Set::empty().insert(0usize));
    } else {
        lemma_range_size((slot - 1) as usize);
        assert(taken =~= Set::new(|s: usize| s <= (slot - 1) as usize).insert(slot));
    }
}

/// Which of the open notifications sits lowest, nearest the corner: the one the answer shortcut
/// brings to the front. The first of them if two share a slot, and nothing when none is open.
pub fn nearest_notification(slots: &Vec<usize>) -> (nearest: Option<usize>)
    ensures
        slots@.len() == 0 <==> nearest is None,
        nearest matches Some(k) ==> k < slots@.len() && (forall|j: int|
            0 <= j < slots@.len() ==> slots@[k as int] <= slots@[j]) && (forall|j: int|
            0 <= j < k ==> slots@[k as int] < slots@[j]),
{
    let mut nearest: Option<usize> = None;
    let mut i: usize = 0;
    while i < slots.len()
        invariant
            i <= slots@.len(),
            i == 0 <==> nearest is None,
            nearest matches Some(k) ==> k < i && (forall|j: int| 0 <= j < i ==> slots@[k as int] <= slots@[j])
                && (forall|j: int| 0 <= j < k ==> slots@[k as int] < slots@[j]),
        decreases slots.len() - i,
    {
        match nearest {
            None => {
                nearest = Some(i);
            },
            Some(k) => {
                if slots[i] < slots[k] {
                    nearest = Some(i);
                }
            },
        }
        i += 1;
    }
    nearest
}

/// A reminder once its notification has been answered at `now`: done, or pushed back by the
/// snooze's delay from now and counted (up to the largest count there is).
pub open spec fn answered(reminder: (u64, State, u32, Seq<char>), outcome: Outcome, now: u64) -> (
    u64,
    State,
    u32,
    Seq<char>,
) {
    match outcome {
        Outcome::Done => (reminder.0, State::Done, reminder.2, reminder.3),
        Outcome::Later(delay) => (
            due_after(now, delay),
            reminder.1,
            if reminder.2 < u32::MAX {
                (reminder.2 + 1) as u32
            } else {
                u32::MAX
            },
            reminder.3,
        ),
    }
}

/// A reminder is never lost by being dismissed: closing or ignoring its notification keeps it
/// pending with the same text and brings it back half an hour later, counted as a snooze.
pub proof fn lemma_dismissing_keeps_the_reminder(reminder: (u64, State, u32, Seq<char>), now: u64)
    requires
        reminder.1 == State::Pending,
    ensures
        answered(reminder, crate::notify::standing_outcome(), now).0 == due_after(now, 1800),
        answered(reminder, crate::notify::standing_outcome(), now).1 == State::Pending,
        answered(reminder, crate::notify::standing_outcome(), now).3 == reminder.3,
{
}

/// Applies what the user did with a notification to its reminder.
pub fn apply_outcome(reminder: &mut Reminder, outcome: Outcome, now: u64)
    ensures
        final(reminder)@ == answered(old(reminder)@, outcome, now),
{
    match outcome {
        Outcome::Done => {
            reminder.state = State::Done;
        },
        Outcome::Later(delay) => {
            reminder.due_unix = now.saturating_add(delay);
            reminder.snoozes = reminder.snoozes.saturating_add(1);
        },
    }
}

} // verus!
