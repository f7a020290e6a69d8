//! Two searches for a better box: a climb over orientations, and a shrinking of
//! its sides.
//!
//! A climb starts with steps of 15 degrees. Each round tries a turn about every
//! axis, both ways; a turn that scores less than the best by a margin is taken
//! at once. A round that takes nothing halves the step; the climb ends when the
//! step is below one degree, or when the rounds are used up.
//!
//! A shrinking makes at most five rounds. Each tries three factors on every
//! side; the best that scores less by a margin is taken at the end of the
//! round, and a round that takes nothing is the last.

use crate::scalar::Scalar;
use vstd::arithmetic::power2::{lemma2_to64, lemma_pow2_strictly_increases, pow2};
use vstd::prelude::*;

verus! {

/// How many turns a round tries.
pub const TURNS: usize = 6;

/// A turn by one step: about which axis, and whether backwards.
#[derive(Clone, Copy, Debug, PartialEq, Eq, Structural)]
pub struct Turn {
    pub axis: usize,
    pub back: bool,
}

/// The state of a climb.
#[derive(Clone, Copy, Debug, PartialEq, Eq, Structural)]
pub struct Climb {
    /// How often the step has been halved.
    pub halvings: u32,
    /// How many rounds are over.
    pub rounds: usize,
    pub max_rounds: usize,
    /// How many turns of this round have been tried.
    pub tried: usize,
    /// Whether one of them was taken.
    pub improved: bool,
    /// The least score so far.
    pub best: Scalar,
}

/// A step of 15 degrees, halved so often, is at least one degree.
pub open spec fn step_is_large_enough(halvings: nat) -> bool {
    15 >= pow2(halvings)
}

/// The turns of a round: about each axis in order, backwards first.
pub open spec fn turn_at(k: int) -> Turn {
    Turn { axis: (k / 2) as usize, back: k % 2 == 0 }
}

impl Climb {
    pub open spec fn inv(self) -> bool {
        &&& self.halvings <= 4
        &&& self.rounds <= self.max_rounds
        &&& self.tried < TURNS
        &&& self.tried > 0 ==> self.is_due()
        &&& self.tried == 0 ==> !self.improved
    }

    /// The climb after these answers: what each turn scores, and that with the
    /// margin.
    pub open spec fn after(self, answers: Seq<(Scalar, Scalar)>) -> Climb
        decreases answers.len(),
    {
        if answers.len() == 0 {
            self
        } else {
            self.after(answers.drop_last()).answered(answers.last().0, answers.last().1)
        }
    }

    /// None of the answers is less than the best, by the margin.
    pub open spec fn is_idle(self, answers: Seq<(Scalar, Scalar)>) -> bool {
        forall|i: int| 0 <= i < answers.len() ==> !(#[trigger] answers[i]).1.spec_lt(self.best)
    }

    /// A turn was due before each of the answers.
    pub open spec fn goes_through(self, answers: Seq<(Scalar, Scalar)>) -> bool {
        forall|k: int| 0 <= k < answers.len() ==> (#[trigger] self.after(answers.subrange(0, k))).is_due()
    }

    /// A round is due.
    pub open spec fn is_due(self) -> bool {
        step_is_large_enough(self.halvings as nat) && self.rounds < self.max_rounds
    }

    /// The turn is taken: it scores less than the best, by the margin.
    pub open spec fn takes(self, with_margin: Scalar) -> bool {
        with_margin.spec_lt(self.best)
    }

    /// The state after a turn with this score; the last of a round ends it.
    pub open spec fn answered(self, score: Scalar, with_margin: Scalar) -> Climb {
        let improved = self.improved || self.takes(with_margin);
        let best = if self.takes(with_margin) {
            score
        } else {
            self.best
        };
        if self.tried + 1 < TURNS {
            Climb { tried: (self.tried + 1) as usize, improved, best, ..self }
        } else {
            Climb {
                halvings: if improved {
                    self.halvings
                } else {
                    (self.halvings + 1) as u32
                },
                rounds: (self.rounds + 1) as usize,
                max_rounds: self.max_rounds,
                tried: 0,
                improved: false,
                best,
            }
        }
    }

    pub fn new(max_rounds: usize, start: Scalar) -> (c: Self)
        ensures
            c == (Climb { halvings: 0, rounds: 0, max_rounds, tried: 0, improved: false, best: start }),
            c.inv(),
    {
        Climb { halvings: 0, rounds: 0, max_rounds, tried: 0, improved: false, best: start }
    }

    /// The turn to try next; `None` when the climb is over.
    pub fn next(&self) -> (turn: Option<Turn>)
        requires
            self.inv(),
        ensures
            turn == (if self.is_due() {
                Some(turn_at(self.tried as int))
            } else {
                None
            }),
    {
        proof {
            lemma2_to64();
        }
        if self.halvings <= 3 && self.rounds < self.max_rounds {
            Some(Turn { axis: self.tried / 2, back: self.tried % 2 == 0 })
        } else {
            None
        }
    }

    /// Tells what the turn just tried scored; says whether it is taken.
    pub fn answer(&mut self, score: Scalar, with_margin: Scalar) -> (taken: bool)
        requires
            old(self).inv(),
            old(self).is_due(),
        ensures
            final(self).inv(),
            *final(self) == old(self).answered(score, with_margin),
            taken == old(self).takes(with_margin),
            taken <==> with_margin.spec_lt(old(self).best),
            final(self).best == (if taken {
                score
            } else {
                old(self).best
            }),
            final(self).max_rounds == old(self).max_rounds,
            taken ==> final(self).halvings == old(self).halvings,
            old(self).tried < 5 ==> final(self).rounds == old(self).rounds && final(self).halvings == old(
                self,
            ).halvings,
            old(self).tried == 5 ==> final(self).rounds == old(self).rounds + 1 && final(self).tried == 0,
    {
        proof {
            lemma2_to64();
        }
        let taken: bool = with_margin.lt(self.best);
        if taken {
            self.best = score;
            self.improved = true;
        }
        if self.tried + 1 < TURNS {
            self.tried = self.tried + 1;
        } else {
            if !self.improved {
                self.halvings = self.halvings + 1;
            }
            self.rounds = self.rounds + 1;
            self.tried = 0;
            self.improved = false;
        }
        taken
    }
}

/// A climb that never improves ends after at most four rounds.
pub proof fn law_idle_climb_is_short(halvings: nat)
    ensures
        step_is_large_enough(halvings) <==> halvings < 4,
{
    lemma2_to64();
    if halvings > 4 {
        lemma_pow2_strictly_increases(4, halvings);
    } else {
        assert(halvings == 0 || halvings == 1 || halvings == 2 || halvings == 3 || halvings == 4);
    }
}

proof fn lemma_prefix_goes_through(c: Climb, answers: Seq<(Scalar, Scalar)>)
    requires
        c.goes_through(answers),
        answers.len() > 0,
    ensures
        c.goes_through(answers.drop_last()),
        c.after(answers.drop_last()).is_due(),
{
    let rest = answers.drop_last();
    assert forall|k: int| 0 <= k < rest.len() implies (#[trigger] c.after(rest.subrange(0, k))).is_due() by {
        assert(rest.subrange(0, k) =~= answers.subrange(0, k));
        assert(c.after(answers.subrange(0, k)).is_due());
    }
    assert(answers.subrange(0, answers.len() - 1) =~= rest);
    assert(c.after(answers.subrange(0, answers.len() - 1)).is_due());
}

/// How a climb goes on in vain.
proof fn lemma_idle(c: Climb, answers: Seq<(Scalar, Scalar)>)
    requires
        c.inv(),
        c.is_idle(answers),
        c.goes_through(answers),
    ensures
        ({
            let w = c.after(answers);
            &&& w.inv()
            &&& w.best == c.best
            &&& w.max_rounds == c.max_rounds
            &&& c.rounds <= w.rounds
            &&& 6 * w.rounds + w.tried == 6 * c.rounds + c.tried + answers.len()
            &&& w.rounds == c.rounds ==> w.improved == c.improved && w.halvings == c.halvings
            &&& w.rounds > c.rounds ==> !w.improved && w.halvings == c.halvings + (w.rounds - c.rounds) - (if c.improved {
                1int
            } else {
                0int
            })
        }),
    decreases answers.len(),
{
    lemma2_to64();
    if answers.len() > 0 {
        let rest = answers.drop_last();
        lemma_prefix_goes_through(c, answers);
        assert forall|i: int| 0 <= i < rest.len() implies !(#[trigger] rest[i]).1.spec_lt(c.best) by {
            assert(!answers[i].1.spec_lt(c.best));
        }
        lemma_idle(c, rest);
        assert(!answers[answers.len() - 1].1.spec_lt(c.best));
        law_idle_climb_is_short(c.after(rest).halvings as nat);
    }
}

/// A round none of whose turns gains by the margin halves the step, whatever
/// earlier rounds did.
pub proof fn law_idle_round_halves_the_step(c: Climb, answers: Seq<(Scalar, Scalar)>)
    requires
        c.inv(),
        c.is_due(),
        c.tried == 0,
        answers.len() == 6,
        forall|i: int| 0 <= i < 6 ==> !(#[trigger] answers[i]).1.spec_lt(c.best),
    ensures
        c.after(answers).halvings == c.halvings + 1,
        c.after(answers).rounds == c.rounds + 1,
        c.after(answers).tried == 0,
        c.after(answers).best == c.best,
        c.after(answers).inv(),
{
    lemma_round_is_due(c, answers);
    lemma_idle(c, answers);
}

/// Within a round a turn stays due.
proof fn lemma_round_is_due(c: Climb, answers: Seq<(Scalar, Scalar)>)
    requires
        c.inv(),
        c.is_due(),
        c.tried == 0,
        answers.len() <= 6,
    ensures
        c.goes_through(answers),
{
    assert forall|k: int| 0 <= k < answers.len() implies (#[trigger] c.after(answers.subrange(0, k))).is_due() by {
        lemma_in_round(c, answers.subrange(0, k));
    }
}

proof fn lemma_in_round(c: Climb, answers: Seq<(Scalar, Scalar)>)
    requires
        c.inv(),
        c.is_due(),
        c.tried == 0,
        answers.len() < 6,
    ensures
        c.after(answers).tried == answers.len(),
        c.after(answers).rounds == c.rounds,
        c.after(answers).halvings == c.halvings,
        c.after(answers).max_rounds == c.max_rounds,
    decreases answers.len(),
{
    if answers.len() > 0 {
        lemma_in_round(c, answers.drop_last());
    }
}

/// A round in which a turn gains by the margin keeps the step, and ends with a
/// score that none of its turns beats by the margin.
pub proof fn law_gaining_round_keeps_the_step(c: Climb, answers: Seq<(Scalar, Scalar)>, g: int)
    requires
        c.inv(),
        c.is_due(),
        c.tried == 0,
        answers.len() == 6,
        forall|i: int| 0 <= i < 6 ==> (#[trigger] answers[i]).0.spec_le(answers[i].1),
        0 <= g < 6,
        answers[g].1.spec_lt(c.best),
    ensures
        c.after(answers).halvings == c.halvings,
        c.after(answers).rounds == c.rounds + 1,
        c.after(answers).tried == 0,
        c.after(answers).best.spec_lt(c.best),
        forall|i: int| 0 <= i < 6 ==> !(#[trigger] answers[i]).1.spec_lt(c.after(answers).best),
        exists|i: int| 0 <= i < 6 && #[trigger] answers[i].0 == c.after(answers).best,
{
    lemma_gain(c, answers);
    lemma_in_round(c, answers.drop_last());
    lemma_gain(c, answers.drop_last());
    if g < 5 {
        assert(answers.drop_last()[g] == answers[g]);
    }
    let i = choose|i: int| 0 <= i < 6 && #[trigger] answers[i].0 == c.after(answers).best;
    assert(answers[i].0 == c.after(answers).best);
}

/// What a part of a round comes to.
proof fn lemma_gain(c: Climb, answers: Seq<(Scalar, Scalar)>)
    requires
        c.inv(),
        c.is_due(),
        c.tried == 0,
        answers.len() <= 6,
        forall|i: int| 0 <= i < answers.len() ==> (#[trigger] answers[i]).0.spec_le(answers[i].1),
    ensures
        ({
            let w = c.after(answers);
            &&& forall|i: int| 0 <= i < answers.len() ==> !(#[trigger] answers[i]).1.spec_lt(w.best)
            &&& w.best == c.best || (w.best.spec_lt(c.best) && exists|i: int|
                0 <= i < answers.len() && #[trigger] answers[i].0 == w.best)
            &&& answers.len() < 6 ==> (w.improved <==> exists|i: int|
                0 <= i < answers.len() && (#[trigger] answers[i]).1.spec_lt(c.best))
            &&& answers.len() < 6 ==> (w.improved <==> w.best != c.best)
        }),
    decreases answers.len(),
{
    if answers.len() > 0 {
        let rest = answers.drop_last();
        assert forall|i: int| 0 <= i < rest.len() implies (#[trigger] rest[i]).0.spec_le(rest[i].1) by {
            assert(answers[i].0.spec_le(answers[i].1));
        }
        lemma_gain(c, rest);
        lemma_in_round(c, rest);
        let (v, w) = (c.after(rest), c.after(answers));
        let n = answers.len() - 1;
        assert(answers[n].0.spec_le(answers[n].1));
        assert forall|i: int| 0 <= i < answers.len() implies !(#[trigger] answers[i]).1.spec_lt(w.best) by {
            if i < n {
                assert(!rest[i].1.spec_lt(v.best));
            }
        }
        if w.best != c.best {
            if answers[n].1.spec_lt(v.best) {
                assert(answers[n].0 == w.best);
            } else {
                let i = choose|i: int| 0 <= i < rest.len() && #[trigger] rest[i].0 == v.best;
                assert(answers[i].0 == w.best);
            }
        }
        if v.improved {
            let i = choose|i: int| 0 <= i < rest.len() && (#[trigger] rest[i]).1.spec_lt(c.best);
            assert(answers[i].1.spec_lt(c.best));
        }
        if exists|i: int| 0 <= i < answers.len() && (#[trigger] answers[i]).1.spec_lt(c.best) {
            let i = choose|i: int| 0 <= i < answers.len() && (#[trigger] answers[i]).1.spec_lt(c.best);
            if i < n {
                assert(rest[i].1.spec_lt(c.best));
            }
        }
    }
}

/// A climb that gains nothing more ends soon: it finishes the round it is in
/// and makes at most four more.
pub proof fn law_climb_ends_after_its_last_gain(c: Climb, answers: Seq<(Scalar, Scalar)>)
    requires
        c.inv(),
        c.is_idle(answers),
        c.goes_through(answers),
    ensures
        c.after(answers).rounds <= c.rounds + 5,
        c.tried == 0 ==> c.after(answers).rounds <= c.rounds + 4,
        c.tried == 0 ==> answers.len() <= 24,
        answers.len() <= 30,
        c.after(answers).best == c.best,
{
    lemma_idle(c, answers);
    if answers.len() > 0 {
        let rest = answers.drop_last();
        lemma_prefix_goes_through(c, answers);
        assert forall|i: int| 0 <= i < rest.len() implies !(#[trigger] rest[i]).1.spec_lt(c.best) by {
            assert(!answers[i].1.spec_lt(c.best));
        }
        lemma_idle(c, rest);
        law_idle_climb_is_short(c.after(rest).halvings as nat);
    }
}

/// A climb never loses what it has: where scores do not exceed themselves with
/// the margin, the best score never rises.
pub proof fn law_climb_never_worsens(c: Climb, score: Scalar, with_margin: Scalar)
    requires
        !c.best.spec_is_nan(),
        score.spec_le(with_margin),
    ensures
        c.answered(score, with_margin).best.spec_le(c.best),
{
}

/// Every round tries each axis both ways.
pub proof fn law_round_tries_every_turn(axis: usize, back: bool)
    requires
        axis < 3,
    ensures
        exists|k: int| 0 <= k < TURNS && #[trigger] turn_at(k) == (Turn { axis, back }),
{
    let k = 2 * axis + (if back { 0int } else { 1int });
    assert(turn_at(k) == (Turn { axis, back }));
}

/// How many rounds a shrinking makes at most, and how many trials a round.
pub const SHRINK_ROUNDS: usize = 5;

pub const SHRINK_TRIALS: usize = 9;

/// A side to be made shorter: along which axis, and by which of the factors.
#[derive(Clone, Copy, Debug, PartialEq, Eq, Structural)]
pub struct Trial {
    pub axis: usize,
    pub factor: usize,
}

/// What came of a trial.
#[derive(Clone, Copy, Debug, PartialEq, Eq, Structural)]
pub struct Verdict {
    /// It is the best of its round so far.
    pub taken: bool,
    /// The round is over and its best is kept.
    pub kept: bool,
}

/// The state of a shrinking.
#[derive(Clone, Copy, Debug)]
pub struct Shrinking {
    /// How many rounds have been kept.
    pub rounds: usize,
    /// How many trials of this round have been made.
    pub tried: usize,
    /// The score of the best of them, and the score with the margin.
    pub round_best: Option<(Scalar, Scalar)>,
    /// The least score kept so far.
    pub best: Scalar,
    /// A round has come to nothing.
    pub over: bool,
}

/// The trials of a round: the factors in order for each axis in turn.
pub open spec fn trial_at(k: int) -> Trial {
    Trial { axis: (k / 3) as usize, factor: (k % 3) as usize }
}

impl Shrinking {
    pub open spec fn inv(self) -> bool {
        &&& self.rounds <= SHRINK_ROUNDS
        &&& self.tried < SHRINK_TRIALS
        &&& self.tried > 0 ==> self.is_due()
        &&& self.tried == 0 ==> self.round_best is None
    }

    /// The shrinking after these answers: what each trial scores, and that with
    /// the margin.
    pub open spec fn after(self, answers: Seq<(Scalar, Scalar)>) -> Shrinking
        decreases answers.len(),
    {
        if answers.len() == 0 {
            self
        } else {
            self.after(answers.drop_last()).answered(answers.last().0, answers.last().1)
        }
    }

    /// Another trial is due.
    pub open spec fn is_due(self) -> bool {
        !self.over && self.rounds < SHRINK_ROUNDS
    }

    /// What a trial has to score less than.
    pub open spec fn to_beat(self) -> Scalar {
        match self.round_best {
            Some(r) => r.0,
            None => self.best,
        }
    }

    pub open spec fn takes(self, with_margin: Scalar) -> bool {
        with_margin.spec_lt(self.to_beat())
    }

    /// The best of the round once a trial has scored.
    pub open spec fn round_after(self, score: Scalar, with_margin: Scalar) -> Option<(Scalar, Scalar)> {
        if self.takes(with_margin) {
            Some((score, with_margin))
        } else {
            self.round_best
        }
    }

    /// The trial ends a round whose best is kept.
    pub open spec fn keeps(self, score: Scalar, with_margin: Scalar) -> bool {
        self.tried + 1 == SHRINK_TRIALS && (self.round_after(score, with_margin) matches Some(r) && r.1.spec_lt(
            self.best,
        ))
    }

    /// The state after a trial with this score.
    pub open spec fn answered(self, score: Scalar, with_margin: Scalar) -> Shrinking {
        let round_best = self.round_after(score, with_margin);
        if self.tried + 1 < SHRINK_TRIALS {
            Shrinking { tried: (self.tried + 1) as usize, round_best, ..self }
        } else {
            match round_best {
                Some(r) => if r.1.spec_lt(self.best) {
                    Shrinking { rounds: (self.rounds + 1) as usize, tried: 0, round_best: None, best: r.0, over: false }
                } else {
                    Shrinking { tried: 0, round_best: None, over: true, ..self }
                },
                None => Shrinking { tried: 0, round_best: None, over: true, ..self },
            }
        }
    }

    /// Starts from a score; `None` where it is not above the threshold.
    pub fn new(start: Scalar, threshold: Scalar) -> (res: Option<Self>)
        ensures
            match res {
                Some(s) => {
                    &&& !start.spec_le(threshold)
                    &&& s == (Shrinking { rounds: 0, tried: 0, round_best: None, best: start, over: false })
                    &&& s.inv()
                },
                None => start.spec_le(threshold),
            },
    {
        if start.le(threshold) {
            None
        } else {
            Some(Shrinking { rounds: 0, tried: 0, round_best: None, best: start, over: false })
        }
    }

    /// The trial to make next; `None` when the shrinking is over.
    pub fn next(&self) -> (trial: Option<Trial>)
        requires
            self.inv(),
        ensures
            trial == (if self.is_due() {
                Some(trial_at(self.tried as int))
            } else {
                None
            }),
    {
        if !self.over && self.rounds < SHRINK_ROUNDS {
            Some(Trial { axis: self.tried / 3, factor: self.tried % 3 })
        } else {
            None
        }
    }

    /// Tells what the trial just made scored.
    pub fn answer(&mut self, score: Scalar, with_margin: Scalar) -> (v: Verdict)
        requires
            old(self).inv(),
            old(self).is_due(),
        ensures
            final(self).inv(),
            *final(self) == old(self).answered(score, with_margin),
            v.taken == old(self).takes(with_margin),
            v.kept == old(self).keeps(score, with_margin),
    {
        let bar: Scalar = match self.round_best {
            Some(r) => r.0,
            None => self.best,
        };
        let taken: bool = with_margin.lt(bar);
        if taken {
            self.round_best = Some((score, with_margin));
        }
        if self.tried + 1 < SHRINK_TRIALS {
            self.tried = self.tried + 1;
            return Verdict { taken, kept: false };
        }
        let mut kept: bool = false;
        if let Some(r) = self.round_best {
            if r.1.lt(self.best) {
                self.best = r.0;
                self.rounds = self.rounds + 1;
                kept = true;
            }
        }
        self.tried = 0;
        self.round_best = None;
        self.over = !kept;
        Verdict { taken, kept }
    }
}

/// A shrinking never loses what it has: where scores do not exceed themselves
/// with the margin, the best score never rises, and a round that is kept lowers
/// it by the margin.
pub proof fn law_shrinking_never_worsens(s: Shrinking, score: Scalar, with_margin: Scalar)
    requires
        !s.best.spec_is_nan(),
        score.spec_le(with_margin),
        s.round_best matches Some(r) ==> r.0.spec_le(r.1),
    ensures
        s.answered(score, with_margin).best.spec_le(s.best),
        s.keeps(score, with_margin) ==> s.answered(score, with_margin).best.spec_lt(s.best),
{
}

/// What a part of a round comes to.
proof fn lemma_shrink_round(s: Shrinking, answers: Seq<(Scalar, Scalar)>)
    requires
        s.inv(),
        s.is_due(),
        s.tried == 0,
        !s.best.spec_is_nan(),
        answers.len() < 9,
        forall|i: int| 0 <= i < answers.len() ==> (#[trigger] answers[i]).0.spec_le(answers[i].1),
    ensures
        ({
            let w = s.after(answers);
            &&& w.tried == answers.len()
            &&& w.rounds == s.rounds
            &&& w.best == s.best
            &&& !w.over
            &&& match w.round_best {
                Some(r) => {
                    &&& exists|i: int| 0 <= i < answers.len() && #[trigger] answers[i] == r
                    &&& r.1.spec_lt(s.best)
                    &&& forall|i: int| 0 <= i < answers.len() ==> !(#[trigger] answers[i]).1.spec_lt(r.0)
                },
                None => forall|i: int| 0 <= i < answers.len() ==> !(#[trigger] answers[i]).1.spec_lt(s.best),
            }
        }),
    decreases answers.len(),
{
    if answers.len() > 0 {
        let rest = answers.drop_last();
        assert forall|i: int| 0 <= i < rest.len() implies (#[trigger] rest[i]).0.spec_le(rest[i].1) by {
            assert(answers[i].0.spec_le(answers[i].1));
        }
        lemma_shrink_round(s, rest);
        let (v, w) = (s.after(rest), s.after(answers));
        let n = answers.len() - 1;
        assert(answers[n].0.spec_le(answers[n].1));
        if let Some(r) = v.round_best {
            let i = choose|i: int| 0 <= i < rest.len() && #[trigger] rest[i] == r;
            assert(answers[i] == r);
            assert(answers[i].0.spec_le(answers[i].1));
        }
        assert forall|i: int| 0 <= i < answers.len() implies !(#[trigger] answers[i]).1.spec_lt(w.to_beat()) by {
            assert(answers[i].0.spec_le(answers[i].1));
            if i < n {
                assert(!rest[i].1.spec_lt(v.to_beat()));
            }
        }
        assert(answers[n] == answers.last());
    }
}

/// A round of nine trials keeps the best of those that gain by the margin, and
/// there is another; where none gains, nothing changes and it was the last.
pub proof fn law_shrink_round_keeps_its_best(s: Shrinking, answers: Seq<(Scalar, Scalar)>)
    requires
        s.inv(),
        s.is_due(),
        s.tried == 0,
        !s.best.spec_is_nan(),
        answers.len() == 9,
        forall|i: int| 0 <= i < 9 ==> (#[trigger] answers[i]).0.spec_le(answers[i].1),
    ensures
        ({
            let w = s.after(answers);
            let gains = exists|i: int| 0 <= i < 9 && (#[trigger] answers[i]).1.spec_lt(s.best);
            &&& w.tried == 0
            &&& w.round_best is None
            &&& gains ==> {
                &&& !w.over
                &&& w.rounds == s.rounds + 1
                &&& w.best.spec_lt(s.best)
                &&& exists|i: int| 0 <= i < 9 && #[trigger] answers[i].0 == w.best
                &&& forall|i: int| 0 <= i < 9 ==> !(#[trigger] answers[i]).1.spec_lt(w.best)
            }
            &&& !gains ==> w.over && w.rounds == s.rounds && w.best == s.best
        }),
{
    let rest = answers.drop_last();
    assert forall|i: int| 0 <= i < rest.len() implies (#[trigger] rest[i]).0.spec_le(rest[i].1) by {
        assert(answers[i].0.spec_le(answers[i].1));
    }
    lemma_shrink_round(s, rest);
    let (v, w) = (s.after(rest), s.after(answers));
    assert(answers[8].0.spec_le(answers[8].1));
    assert(answers[8] == answers.last());
    if let Some(r) = v.round_best {
        let i = choose|i: int| 0 <= i < rest.len() && #[trigger] rest[i] == r;
        assert(answers[i] == r);
        assert(answers[i].0.spec_le(answers[i].1));
        assert(answers[i].1.spec_lt(s.best));
    }
    let bar = match v.round_after(answers[8].0, answers[8].1) {
        Some(r) => r.0,
        None => s.best,
    };
    assert forall|i: int| 0 <= i < 9 implies !(#[trigger] answers[i]).1.spec_lt(bar) by {
        assert(answers[i].0.spec_le(answers[i].1));
        if i < 8 {
            assert(!rest[i].1.spec_lt(v.to_beat()));
        }
    }
    if answers[8].1.spec_lt(v.to_beat()) {
        assert(answers[8].1.spec_lt(s.best));
    }
}

/// A round turns about each axis both ways, one axis after the other and
/// backwards first.
pub proof fn law_turns_of_a_round(k: int, axis: usize)
    requires
        0 <= k < 6,
        axis < 3,
    ensures
        turn_at(k).axis < 3,
        k + 2 < 6 ==> turn_at(k + 2).axis == turn_at(k).axis + 1 && turn_at(k + 2).back == turn_at(k).back,
        turn_at(2 * axis) == (Turn { axis, back: true }),
        turn_at(2 * axis + 1) == (Turn { axis, back: false }),
{
}

/// A round of shrinking tries three factors on each axis, one axis after the
/// other.
pub proof fn law_trials_of_a_round(axis: usize, factor: usize)
    requires
        axis < 3,
        factor < 3,
    ensures
        trial_at(3 * axis + factor) == (Trial { axis, factor }),
        3 * axis + factor < SHRINK_TRIALS,
        SHRINK_TRIALS == 9,
{
}

/// There are five rounds of shrinking at most, and none after one that gained
/// nothing.
pub proof fn law_shrinking_ends(s: Shrinking)
    requires
        s.inv(),
    ensures
        s.rounds <= 5,
        s.rounds == 5 ==> !s.is_due(),
        s.over ==> !s.is_due(),
        s.rounds < 5 && !s.over ==> s.is_due(),
{
}

/// A trial is kept where the round ends with it and has gained: then the best
/// score is that of the round, and otherwise it stays as it was.
pub proof fn law_gain_is_kept_at_the_end_of_a_round(s: Shrinking, score: Scalar, with_margin: Scalar)
    requires
        s.inv(),
        s.is_due(),
    ensures
        s.keeps(score, with_margin) <==> s.answered(score, with_margin).rounds == s.rounds + 1,
        !s.keeps(score, with_margin) ==> s.answered(score, with_margin).best == s.best,
        s.keeps(score, with_margin) ==> s.tried == 8 && (s.answered(score, with_margin).best == score || (
        s.round_best matches Some(r) && s.answered(score, with_margin).best == r.0)),
        s.tried < 8 ==> s.answered(score, with_margin).tried == s.tried + 1,
        s.tried == 8 ==> s.answered(score, with_margin).tried == 0,
        with_margin.spec_lt(s.best) && s.round_best is None ==> s.takes(with_margin),
        s.round_best matches Some(r) ==> (s.takes(with_margin) <==> with_margin.spec_lt(r.0)),
{
}

} // verus!
