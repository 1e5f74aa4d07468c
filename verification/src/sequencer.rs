//! The sequence list of the flat sequencer and the messages that edit it.
//! Each message changes the list and yields the steps the player then
//! performs: dropping the notes of a token, or drawing the sequence at an
//! index again.
use vstd::prelude::*;

verus! {

/// A sequence of the list, with the token its notes are filed under.
pub struct Entry<T> {
    pub token: usize,
    pub sequence: T,
}

/// An edit of the sequence list.
pub enum Message<T> {
    /// Forget every sequence and every note.
    NewScore,
    /// Append a sequence.
    NewSequence(Entry<T>),
    /// Replace the sequence at an index.
    EditSequence(usize, Entry<T>),
    /// Remove the sequence at an index.
    DeleteSequence(usize),
    /// Append a copy of the sequence at an index, under a new token.
    CloneSequence(usize, usize),
    /// Exchange the sequences at two indices.
    SwapSequences(usize, usize),
}

/// What the player does after a message.
#[derive(Clone, Copy, PartialEq, Eq, Structural, Debug)]
pub enum Step {
    /// Drop every note.
    ClearNotes,
    /// Drop the notes filed under a token.
    RemoveNotes(usize),
    /// Draw the sequence at an index.
    Draw(usize),
}

pub open spec fn tokens_of<T>(entries: Seq<Entry<T>>) -> Seq<usize> {
    entries.map_values(|e: Entry<T>| e.token)
}

/// Regenerating the sequences at `from ..` `end`: drop the notes of each,
/// then draw it, in order.
pub open spec fn regen_steps(tokens: Seq<usize>, from: int, end: int) -> Seq<Step>
    decreases end - from,
{
    if from >= end {
        Seq::empty()
    } else {
        seq![Step::RemoveNotes(tokens[from]), Step::Draw(from as usize)] + regen_steps(
            tokens,
            from + 1,
            end,
        )
    }
}

/// The message can be applied: every index it names is in the list.
pub open spec fn message_valid<T>(len: nat, msg: Message<T>) -> bool {
    match msg {
        Message::EditSequence(a, _) => a < len,
        Message::DeleteSequence(a) => a < len,
        Message::CloneSequence(a, _) => a < len,
        Message::SwapSequences(a, b) => a < len && b < len,
        _ => true,
    }
}

/// The list and the steps after a message other than a clone.
pub open spec fn message_effect<T>(entries: Seq<Entry<T>>, msg: Message<T>) -> (
    Seq<Entry<T>>,
    Seq<Step>,
) {
    match msg {
        Message::NewScore => (Seq::empty(), seq![Step::ClearNotes]),
        Message::NewSequence(e) => (entries.push(e), seq![Step::Draw(entries.len() as usize)]),
        Message::EditSequence(a, e) => {
            let after = entries.update(a as int, e);
            (
                after,
                seq![Step::RemoveNotes(e.token), Step::Draw(a)] + regen_steps(
                    tokens_of(after),
                    a + 1,
                    after.len() as int,
                ),
            )
        },
        Message::DeleteSequence(a) => (
            entries.remove(a as int),
            seq![Step::RemoveNotes(entries[a as int].token)],
        ),
        Message::SwapSequences(a, b) => {
            let after = entries.update(a as int, entries[b as int]).update(b as int, entries[a as int]);
            let ts = tokens_of(after);
            let hi = if a > b {
                a
            } else {
                b
            };
            (
                after,
                seq![
                    Step::RemoveNotes(ts[a as int]),
                    Step::Draw(a),
                    Step::RemoveNotes(ts[b as int]),
                    Step::Draw(b),
                ] + regen_steps(ts, hi + 1, after.len() as int),
            )
        },
        Message::CloneSequence(_, _) => (entries, Seq::empty()),
    }
}

fn push_regen_steps<T>(entries: &Vec<Entry<T>>, from: usize, steps: &mut Vec<Step>)
    requires
        from <= entries@.len(),
    ensures
        final(steps)@ == old(steps)@ + regen_steps(
            tokens_of(entries@),
            from as int,
            entries@.len() as int,
        ),
{
    let ghost ts = tokens_of(entries@);
    let ghost start = old(steps)@;
    let mut k = from;
    proof {
        assert(regen_steps(ts, from as int, from as int) =~= Seq::<Step>::empty());
    }
    while k < entries.len()
        invariant
            from <= k <= entries@.len(),
            ts == tokens_of(entries@),
            steps@ + regen_steps(ts, k as int, entries@.len() as int) == start + regen_steps(
                ts,
                from as int,
                entries@.len() as int,
            ),
        decreases entries.len() - k,
    {
        let ghost before = steps@;
        steps.push(Step::RemoveNotes(entries[k].token));
        steps.push(Step::Draw(k));
        proof {
            assert(ts[k as int] == entries@[k as int].token);
            assert(steps@ =~= before + seq![Step::RemoveNotes(ts[k as int]), Step::Draw(k)]);
            assert(before + regen_steps(ts, k as int, entries@.len() as int) =~= steps@
                + regen_steps(ts, k + 1, entries@.len() as int));
        }
        k = k + 1;
    }
    proof {
        assert(regen_steps(ts, k as int, entries@.len() as int) =~= Seq::<Step>::empty());
        assert(steps@ + Seq::<Step>::empty() =~= steps@);
    }
}

fn swap_entries<T>(entries: &mut Vec<Entry<T>>, a: usize, b: usize)
    requires
        a < old(entries)@.len(),
        b < old(entries)@.len(),
    ensures
        final(entries)@ == old(entries)@.update(a as int, old(entries)@[b as int]).update(
            b as int,
            old(entries)@[a as int],
        ),
{
    if a == b {
        proof {
            assert(old(entries)@.update(a as int, old(entries)@[b as int]).update(
                b as int,
                old(entries)@[a as int],
            ) =~= old(entries)@);
        }
        return;
    }
    let (lo, hi) = if a < b {
        (a, b)
    } else {
        (b, a)
    };
    let high = entries.remove(hi);
    let low = entries.remove(lo);
    entries.insert(lo, high);
    entries.insert(hi, low);
    proof {
        assert(entries@ =~= old(entries)@.update(a as int, old(entries)@[b as int]).update(
            b as int,
            old(entries)@[a as int],
        ));
    }
}

/// Apply a message to the sequence list; returns the steps the player
/// performs next, in order.
pub fn handle_message<T: Clone>(entries: &mut Vec<Entry<T>>, msg: Message<T>) -> (r: Vec<Step>)
    requires
        message_valid(old(entries)@.len(), msg),
    ensures
        !(msg is CloneSequence) ==> (final(entries)@, r@) == message_effect(old(entries)@, msg),
        msg matches Message::CloneSequence(a, token) ==> {
            &&& final(entries)@.len() == old(entries)@.len() + 1
            &&& final(entries)@.take(old(entries)@.len() as int) == old(entries)@
            &&& final(entries)@.last().token == token
            &&& cloned(old(entries)@[a as int].sequence, final(entries)@.last().sequence)
            &&& r@ == seq![Step::Draw(old(entries)@.len() as usize)]
        },
{
    let ghost gmsg = msg;
    let mut steps: Vec<Step> = Vec::new();
    match msg {
        Message::NewScore => {
            entries.clear();
            steps.push(Step::ClearNotes);
        },
        Message::NewSequence(e) => {
            let idx = entries.len();
            entries.push(e);
            steps.push(Step::Draw(idx));
        },
        Message::EditSequence(a, e) => {
            let token = e.token;
            entries.set(a, e);
            steps.push(Step::RemoveNotes(token));
            steps.push(Step::Draw(a));
            push_regen_steps(entries, a + 1, &mut steps);
        },
        Message::DeleteSequence(a) => {
            let removed = entries.remove(a);
            steps.push(Step::RemoveNotes(removed.token));
        },
        Message::CloneSequence(a, token) => {
            let sequence = entries[a].sequence.clone();
            let idx = entries.len();
            entries.push(Entry { token, sequence });
            steps.push(Step::Draw(idx));
            proof {
                assert(entries@.take(idx as int) =~= old(entries)@);
            }
        },
        Message::SwapSequences(a, b) => {
            swap_entries(entries, a, b);
            steps.push(Step::RemoveNotes(entries[a].token));
            steps.push(Step::Draw(a));
            steps.push(Step::RemoveNotes(entries[b].token));
            steps.push(Step::Draw(b));
            let hi = if a > b {
                a
            } else {
                b
            };
            let n = entries.len();
            assert(hi < n);
            push_regen_steps(entries, hi + 1, &mut steps);
        },
    }
    proof {
        let ghost pre = old(entries)@;
        match gmsg {
            Message::SwapSequences(a, b) => {
                assert(entries@ =~= pre.update(a as int, pre[b as int]).update(b as int, pre[a as int]));
            },
            _ => {},
        }
    }
    steps
}

} // verus!
