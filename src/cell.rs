//! Cells and the set of digits an open cell may still take.

use vstd::prelude::*;

verus! {

/// A digit of the board, in `1..=9`.
pub type Digit = u8;

/// Count of the digits a cell may still take.
pub type Entropy = u8;

/// The digits among `1..=n` that `p` marks possible, in ascending order.
pub open spec fn digits_upto(p: Seq<bool>, n: int) -> Seq<u8>
    decreases n,
{
    if n <= 0 {
        Seq::empty()
    } else {
        let s = digits_upto(p, n - 1);
        if p[n - 1] {
            s.push(n as u8)
        } else {
            s
        }
    }
}

/// The ascending digit list of `digits_upto` holds exactly the marked digits,
/// each once.
pub proof fn lemma_digits_upto(p: Seq<bool>, n: int)
    requires
        0 <= n <= p.len(),
        p.len() <= 9,
    ensures
        forall|d: int|
            #![trigger digits_upto(p, n).contains(d as u8)]
            1 <= d <= n ==> (digits_upto(p, n).contains(d as u8) <==> p[d - 1]),
        forall|k: int|
            #![trigger digits_upto(p, n)[k]]
            0 <= k < digits_upto(p, n).len() ==> 1 <= digits_upto(p, n)[k] <= n
                && p[digits_upto(p, n)[k] - 1],
        forall|j: int, k: int|
            0 <= j < k < digits_upto(p, n).len() ==> digits_upto(p, n)[j]
                < digits_upto(p, n)[k],
        digits_upto(p, n).len() <= n,
    decreases n,
{
    if n > 0 {
        lemma_digits_upto(p, n - 1);
        let s = digits_upto(p, n - 1);
        assert forall|d: int| 1 <= d <= n implies (#[trigger] digits_upto(p, n).contains(
            d as u8,
        ) <==> p[d - 1]) by {
            if d < n {
                assert(s.contains(d as u8) <==> p[d - 1]);
                if p[n - 1] {
                    assert(s.push(n as u8)[s.len() as int] == n as u8);
                    if s.contains(d as u8) {
                        let k = choose|k: int| 0 <= k < s.len() && s[k] == d as u8;
                        assert(s.push(n as u8)[k] == d as u8);
                    }
                }
            } else {
                if p[n - 1] {
                    assert(s.push(n as u8)[s.len() as int] == n as u8);
                } else {
                    if s.contains(d as u8) {
                        let k = choose|k: int| 0 <= k < s.len() && s[k] == d as u8;
                        assert(s[k] <= n - 1);
                    }
                }
            }
        }
    }
}

/// The set of digits a cell may still take.
#[derive(Clone, Copy, PartialEq, Debug)]
pub struct WaveFunction {
    possibilities: [bool; 9],
}

impl WaveFunction {
    /// `possibilities[d - 1]` marks digit `d` possible.
    pub closed spec fn marks(self) -> Seq<bool> {
        self.possibilities@
    }

    pub open spec fn allows(self, d: int) -> bool {
        1 <= d <= 9 && self.marks()[d - 1]
    }

    /// The possible digits in ascending order.
    pub open spec fn states_seq(self) -> Seq<u8> {
        digits_upto(self.marks(), 9)
    }

    pub open spec fn spec_entropy(self) -> nat {
        self.states_seq().len()
    }

    /// Facts on the possible-digit list: its length, its order, and that it
    /// lists exactly the allowed digits.
    pub proof fn lemma_states(self)
        ensures
            self.marks().len() == 9,
            self.spec_entropy() <= 9,
            forall|d: int|
                #![trigger self.states_seq().contains(d as u8)]
                1 <= d <= 9 ==> (self.states_seq().contains(d as u8) <==> self.allows(d)),
            forall|k: int|
                #![trigger self.states_seq()[k]]
                0 <= k < self.states_seq().len() ==> self.allows(self.states_seq()[k] as int),
            forall|j: int, k: int|
                0 <= j < k < self.states_seq().len() ==> self.states_seq()[j]
                    < self.states_seq()[k],
    {
        lemma_digits_upto(self.marks(), 9);
    }

    /// Two waves that allow the same digits are the same wave.
    pub proof fn lemma_ext(self, other: WaveFunction)
        requires
            forall|d: int| 1 <= d <= 9 ==> (self.allows(d) <==> other.allows(d)),
        ensures
            self == other,
    {
        assert forall|i: int| 0 <= i < 9 implies self.possibilities[i]
            == other.possibilities[i] by {
            assert(self.allows(i + 1) <==> other.allows(i + 1));
        }
        assert(self.possibilities =~= other.possibilities);
    }

    /// The wave that allows no digit.
    pub closed spec fn empty_spec() -> WaveFunction {
        WaveFunction { possibilities: vstd::array::spec_array_fill_for_copy_type::<bool, 9>(false) }
    }

    /// The wave that allows what `self` allows, and `d`.
    pub closed spec fn with_spec(self, d: int) -> WaveFunction {
        WaveFunction { possibilities: vstd::array::spec_array_update(self.possibilities, d - 1, true) }
    }

    pub proof fn lemma_empty_spec()
        ensures
            forall|d: int| !#[trigger] WaveFunction::empty_spec().allows(d),
            WaveFunction::empty_spec().spec_entropy() == 0,
    {
        broadcast use vstd::array::axiom_spec_array_fill_for_copy_type;
        let e = WaveFunction::empty_spec();
        assert forall|d: int| !#[trigger] e.allows(d) by {
            if 1 <= d <= 9 {
                assert(e.possibilities@[d - 1] == false);
            }
        }
        e.lemma_states();
        if e.spec_entropy() > 0 {
            assert(e.allows(e.states_seq()[0] as int));
        }
    }

    pub proof fn lemma_with_spec(self, d: int)
        requires
            1 <= d <= 9,
        ensures
            forall|x: int| #[trigger] self.with_spec(d).allows(x) <==> (self.allows(x) || x == d),
    {
        broadcast use vstd::array::axiom_spec_array_update;
        let w = self.with_spec(d);
        assert(w.possibilities@ == self.possibilities@.update(d - 1, true));
    }

    pub fn new_max_entropy() -> (r: WaveFunction)
        ensures
            forall|d: int| 1 <= d <= 9 ==> r.allows(d),
    {
        WaveFunction { possibilities: [true; 9] }
    }

    /// The wave that allows no digit, to be filled by `add_possibility`.
    pub fn new_min_entropy() -> (r: WaveFunction)
        ensures
            forall|d: int| !r.allows(d),
            r == WaveFunction::empty_spec(),
    {
        proof {
            WaveFunction::lemma_empty_spec();
        }
        WaveFunction { possibilities: [false; 9] }
    }

    pub fn remove_possibility(&mut self, digit: Digit)
        requires
            1 <= digit <= 9,
        ensures
            forall|d: int| final(self).allows(d) <==> (old(self).allows(d) && d != digit),
    {
        self.possibilities[digit as usize - 1] = false;
    }

    pub fn add_possibility(&mut self, digit: Digit)
        requires
            1 <= digit <= 9,
        ensures
            forall|d: int| final(self).allows(d) <==> (old(self).allows(d) || d == digit),
            *final(self) == old(self).with_spec(digit as int),
    {
        self.possibilities[digit as usize - 1] = true;
        proof {
            old(self).lemma_with_spec(digit as int);
            self.lemma_ext(old(self).with_spec(digit as int));
        }
    }

    /// The wave that allows exactly the listed digits.
    pub fn new_possibilities(possibilities: &[Digit]) -> (r: WaveFunction)
        requires
            forall|k: int| 0 <= k < possibilities@.len() ==> 1 <= #[trigger] possibilities@[k] <= 9,
        ensures
            forall|d: int| r.allows(d) <==> (1 <= d <= 9 && possibilities@.contains(d as u8)),
    {
        let mut wave = WaveFunction::new_min_entropy();
        let mut i: usize = 0;
        while i < possibilities.len()
            invariant
                i <= possibilities@.len(),
                forall|k: int|
                    0 <= k < possibilities@.len() ==> 1 <= #[trigger] possibilities@[k] <= 9,
                forall|d: int|
                    wave.allows(d) <==> (1 <= d <= 9 && possibilities@.take(i as int).contains(
                        d as u8,
                    )),
            decreases possibilities@.len() - i,
        {
            let digit = possibilities[i];
            wave.add_possibility(digit);
            i = i + 1;
            assert forall|d: int| wave.allows(d) <==> (1 <= d <= 9 && possibilities@.take(
                i as int,
            ).contains(d as u8)) by {
                if 1 <= d <= 9 {
                    let t = possibilities@.take(i as int);
                    let t0 = possibilities@.take(i - 1);
                    assert(t == t0.push(digit));
                    if t.contains(d as u8) && d != digit {
                        let k = choose|k: int| 0 <= k < t.len() && t[k] == d as u8;
                        assert(t0[k] == d as u8);
                    }
                    if t0.contains(d as u8) {
                        let k = choose|k: int| 0 <= k < t0.len() && t0[k] == d as u8;
                        assert(t[k] == d as u8);
                    }
                    if d == digit {
                        assert(t[i - 1] == d as u8);
                    }
                }
            }
        }
        assert(possibilities@.take(possibilities@.len() as int) == possibilities@);
        wave
    }

    /// Whether `digit` is still possible.
    pub fn is_possible(&self, digit: Digit) -> (r: bool)
        requires
            1 <= digit <= 9,
        ensures
            r == self.allows(digit as int),
    {
        self.possibilities[digit as usize - 1]
    }

    /// The possible digits in ascending order.
    pub fn states(&self) -> (r: Vec<Digit>)
        ensures
            r@ == self.states_seq(),
    {
        let mut r: Vec<Digit> = Vec::new();
        let mut i: usize = 0;
        while i < 9
            invariant
                i <= 9,
                r@ == digits_upto(self.marks(), i as int),
                self.marks() == self.possibilities@,
            decreases 9 - i,
        {
            if self.possibilities[i] {
                r.push((i + 1) as u8);
            }
            i = i + 1;
        }
        r
    }

    /// Count of possible digits.
    pub fn entropy(&self) -> (r: Entropy)
        ensures
            r == self.spec_entropy(),
    {
        let mut count: u8 = 0;
        let mut i: usize = 0;
        while i < 9
            invariant
                i <= 9,
                count == digits_upto(self.marks(), i as int).len(),
                self.marks() == self.possibilities@,
            decreases 9 - i,
        {
            proof {
                lemma_digits_upto(self.marks(), i as int);
            }
            if self.possibilities[i] {
                count = count + 1;
            }
            i = i + 1;
        }
        count
    }

    /// The lowest possible digit, if any.
    pub fn collapse_first(&self) -> (r: Option<Digit>)
        ensures
            r == (if self.spec_entropy() > 0 {
                Some(self.states_seq()[0])
            } else {
                None
            }),
    {
        let states = self.states();
        if states.len() > 0 {
            Some(states[0])
        } else {
            None
        }
    }

    /// The only possible digit, when exactly one is left.
    pub fn collapsed(&self) -> (r: Option<Digit>)
        ensures
            r == (if self.spec_entropy() == 1 {
                Some(self.states_seq()[0])
            } else {
                None
            }),
    {
        let states = self.states();
        if states.len() == 1 {
            Some(states[0])
        } else {
            None
        }
    }
}

/// The state of one cell of the board.
#[derive(Clone, Copy, PartialEq, Debug)]
pub enum Cell {
    /// A fixed digit.
    Certain { digit: Digit },
    /// Any of the digits the wave allows.
    Uncertain { wave: WaveFunction },
    /// Nothing known yet.
    Blank,
}

impl Cell {
    pub fn new_max_entropy() -> (r: Cell)
        ensures
            r matches Cell::Uncertain { wave } && forall|d: int| 1 <= d <= 9 ==> wave.allows(d),
    {
        Cell::Uncertain { wave: WaveFunction::new_max_entropy() }
    }
}

} // verus!
