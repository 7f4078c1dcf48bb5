//! The contact side state machine and the score.

use vstd::prelude::*;

verus! {

/// A side wall of the field.
#[derive(Clone, Copy, Debug, PartialEq, Eq, Structural)]
pub enum Wall {
    Left,
    Right,
}

/// Which side wall the main ball must reach next to score: `Neither` before
/// the first contact of a run, then the wall opposite the one last struck.
#[derive(Clone, Copy, Debug, PartialEq, Eq, Structural)]
pub enum Current {
    Neither,
    Left,
    Right,
}

/// The wall across the field from `w`.
pub open spec fn opposite(w: Wall) -> Wall {
    match w {
        Wall::Left => Wall::Right,
        Wall::Right => Wall::Left,
    }
}

/// The state that has `w` as its target.
pub open spec fn target_state(w: Wall) -> Current {
    match w {
        Wall::Left => Current::Left,
        Wall::Right => Current::Right,
    }
}

/// Whether `w` scores when struck in state `c`.
pub open spec fn scores(c: Current, w: Wall) -> bool {
    c == Current::Neither || c == target_state(w)
}

/// The state after the main ball strikes `w` in state `c`, and whether
/// that contact scores. A scoring contact makes the other wall the target;
/// striking the same wall again changes nothing.
pub open spec fn on_contact(c: Current, w: Wall) -> (Current, bool) {
    if scores(c, w) {
        (target_state(opposite(w)), true)
    } else {
        (c, false)
    }
}

/// The state after a sequence of contacts from `c`, with the number of
/// them that scored.
pub open spec fn run_contacts(c: Current, ws: Seq<Wall>) -> (Current, nat)
    decreases ws.len(),
{
    if ws.len() == 0 {
        (c, 0)
    } else {
        let (mid, k) = run_contacts(c, ws.drop_last());
        let (next, scored) = on_contact(mid, ws.last());
        (next, if scored { k + 1 } else { k })
    }
}

/// The contacts of `ws` that differ from the one before them, the first
/// included.
pub open spec fn fresh_contacts(ws: Seq<Wall>) -> nat
    decreases ws.len(),
{
    if ws.len() == 0 {
        0
    } else if ws.len() == 1 {
        1
    } else {
        let k = fresh_contacts(ws.drop_last());
        if ws.last() != ws[ws.len() - 2] { k + 1 } else { k }
    }
}

/// No two consecutive contacts strike the same wall.
pub open spec fn alternating(ws: Seq<Wall>) -> bool {
    forall|i: int| 0 <= i < ws.len() - 1 ==> #[trigger] ws[i] != ws[i + 1]
}

/// From `Neither`, the first contact on either wall scores and makes the other
/// wall the target; struck again straight away, the same wall does not score.
pub proof fn lemma_contact_transitions(w: Wall)
    ensures
        on_contact(Current::Neither, w) == (target_state(opposite(w)), true),
        on_contact(Current::Neither, Wall::Right) == (Current::Left, true),
        on_contact(Current::Neither, Wall::Left) == (Current::Right, true),
        forall|c: Current| !(#[trigger] on_contact(on_contact(c, w).0, w)).1,
{
}

/// From `Neither`, a run of contacts scores exactly once for each contact that
/// strikes a different wall from the one before it (and for the first); so
/// an alternating run scores on every contact.
pub proof fn lemma_run_scores_fresh_contacts(ws: Seq<Wall>)
    ensures
        run_contacts(Current::Neither, ws).1 == fresh_contacts(ws),
        ws.len() > 0 ==> run_contacts(Current::Neither, ws).0 == target_state(opposite(ws.last())),
        alternating(ws) ==> run_contacts(Current::Neither, ws).1 == ws.len(),
    decreases ws.len(),
{
    if ws.len() > 0 {
        let init = ws.drop_last();
        lemma_run_scores_fresh_contacts(init);
        if ws.len() > 1 {
            assert(init.last() == ws[ws.len() - 2]);
            if alternating(ws) {
                assert(alternating(init)) by {
                    assert forall|i: int| 0 <= i < init.len() - 1 implies #[trigger] init[i] != init[i + 1] by {
                        assert(ws[i] != ws[i + 1]);
                    }
                }
                assert(ws[ws.len() - 2] != ws[ws.len() - 1]);
            }
        }
    }
}

/// Counts one point and keeps the best score: `score` goes up by one, and
/// `best_score` becomes the new score where it exceeds it. Returns whether
/// the best score changed, which is when it must be stored again.
pub fn increment_score(score: &mut u32, best_score: &mut u32) -> (improved: bool)
    requires
        *old(score) < u32::MAX,
    ensures
        *final(score) == *old(score) + 1,
        improved == (*final(score) > *old(best_score)),
        *final(best_score) == if improved { *final(score) } else { *old(best_score) },
{
    *score = *score + 1;
    if *score > *best_score {
        *best_score = *score;
        true
    } else {
        false
    }
}

impl Current {
    /// The transition for a contact with `wall`: the next state and whether
    /// the contact scores.
    pub fn touch(self, wall: Wall) -> (r: (Current, bool))
        ensures
            r == on_contact(self, wall),
    {
        match (self, wall) {
            (Current::Neither, Wall::Right) | (Current::Right, Wall::Right) => (Current::Left, true),
            (Current::Neither, Wall::Left) | (Current::Left, Wall::Left) => (Current::Right, true),
            _ => (self, false),
        }
    }

    /// Whether `wall` is highlighted as a target in this state: both walls
    /// are before the first contact, afterwards only the one to reach next.
    pub fn is_target(self, wall: Wall) -> (r: bool)
        ensures
            r == (self == Current::Neither || self == target_state(wall)),
    {
        match (self, wall) {
            (Current::Neither, _) | (Current::Left, Wall::Left) | (Current::Right, Wall::Right) => true,
            _ => false,
        }
    }
}

/// The persisted record: the best score reached so far.
#[derive(Clone, Copy, Debug, PartialEq, Eq, Structural)]
pub struct SaveDate {
    pub score: u32,
}

impl SaveDate {
    pub fn new(score: u32) -> (r: SaveDate)
        ensures
            r.score == score,
    {
        SaveDate { score }
    }

    pub fn score(&self) -> (r: u32)
        ensures
            r == self.score,
    {
        self.score
    }

    /// The best score to start from: the stored one, or zero where nothing
    /// could be read.
    pub fn best_or_zero(loaded: Option<SaveDate>) -> (r: u32)
        ensures
            r == match loaded {
                Some(d) => d.score,
                None => 0,
            },
    {
        match loaded {
            Some(d) => d.score,
            None => 0,
        }
    }
}

} // verus!
