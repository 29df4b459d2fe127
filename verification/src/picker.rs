use vstd::prelude::*;

verus! {

/// A source of direction choices for the depth-first carve.
///
/// Generation only ever needs "an index below `bound`"; which index comes
/// back decides the maze's shape, never its correctness. A real run draws
/// the index from the thread's random generator; a reproducible run replays
/// a fixed sequence of choices.
pub trait DirectionPicker {
    fn pick(&mut self, bound: usize) -> (choice: usize)
        requires
            bound >= 1,
        ensures
            choice < bound,
    ;
}

/// Relies on rand::Rng::gen_range over rand::thread_rng: for a non-empty
/// range `0..bound` it returns a uniformly sampled value inside that range.
#[verifier::external_body]
fn random_index(bound: usize) -> (choice: usize)
    requires
        bound >= 1,
    ensures
        choice < bound,
{
    rand::Rng::gen_range(&mut rand::thread_rng(), 0..bound)
}

/// Draws every choice from the thread's random number generator.
pub struct RandomPicker {
}

impl DirectionPicker for RandomPicker {
    fn pick(&mut self, bound: usize) -> (choice: usize) {
        random_index(bound)
    }
}

/// Replays a fixed sequence of choices, cycling when the sequence runs out;
/// an empty sequence always yields the first valid direction.
pub struct SequencePicker {
    choices: Vec<usize>,
    next: usize,
}

impl SequencePicker {
    pub closed spec fn choice_seq(self) -> Seq<usize> {
        self.choices@
    }

    pub closed spec fn position(self) -> int {
        self.next as int
    }

    pub fn new(choices: Vec<usize>) -> (p: SequencePicker)
        ensures
            p.choice_seq() == choices@,
            p.position() == 0,
    {
        SequencePicker { choices, next: 0 }
    }
}

impl DirectionPicker for SequencePicker {
    fn pick(&mut self, bound: usize) -> (choice: usize)
        ensures
            final(self).choice_seq() == old(self).choice_seq(),
            old(self).choice_seq().len() == 0 ==> choice == 0 && final(self).position() == old(
                self,
            ).position(),
            old(self).choice_seq().len() > 0 ==> choice == old(self).choice_seq()[old(
                self,
            ).position() % old(self).choice_seq().len() as int] % bound,
            old(self).choice_seq().len() > 0 ==> final(self).position() == (if old(self).position() + 1
                < old(self).choice_seq().len() {
                old(self).position() + 1
            } else {
                0
            }),
    {
        if self.choices.len() == 0 {
            0
        } else {
            let i = self.next % self.choices.len();
            let c = self.choices[i];
            self.next = if self.next < self.choices.len() - 1 {
                self.next + 1
            } else {
                0
            };
            c % bound
        }
    }
}

} // verus!
