//! Fixing a cell and propagating the consequence through its sector.

use vstd::prelude::*;

use crate::cell::{Cell, Digit, WaveFunction};
use crate::grid::{
    admits, cell_allows, compatible, consistent, count_open, digits_in_range,
    lemma_count_open_monotone, lemma_count_open_update, lemma_peers_of_locations, peers, settled,
    Grid,
};
use crate::grid_iter::{lemma_sector_exact, sector_at, sector_cell, sector_seq, SECTOR_LEN};
use crate::location::{lemma_index_bijection, Location};

verus! {

/// `after` allows exactly what `before` allows but `d`.
pub open spec fn wave_without(before: WaveFunction, after: WaveFunction, d: int) -> bool {
    forall|x: int| #[trigger] after.allows(x) <==> (before.allows(x) && x != d)
}

/// `c` leaves no room beside `d`: it holds `d`, or its wave allows nothing else.
pub open spec fn blocks(c: Cell, d: int) -> bool {
    ||| c == (Cell::Certain { digit: d as u8 })
    ||| (c is Uncertain && forall|x: int| #[trigger] c->wave.allows(x) ==> x == d)
}

/// `after` says at least as much as `before`: a certain digit stays, a wave
/// only shrinks or settles on a digit it allowed, a blank stays blank.
pub open spec fn cell_refines(before: Cell, after: Cell) -> bool {
    match before {
        Cell::Certain { .. } => after == before,
        Cell::Uncertain { wave } => match after {
            Cell::Certain { digit } => wave.allows(digit as int),
            Cell::Uncertain { wave: w2 } => forall|x: int| #[trigger] w2.allows(x) ==> wave.allows(x),
            Cell::Blank => false,
        },
        Cell::Blank => after is Blank,
    }
}

/// Every cell but `except` of `after` refines that of `before`.
pub open spec fn refines(before: Seq<Cell>, after: Seq<Cell>, except: int) -> bool {
    &&& after.len() == before.len()
    &&& forall|i: int|
        0 <= i < before.len() && i != except ==> cell_refines(before[i], #[trigger] after[i])
}

/// Some pending collapse is for cell `j`.
pub open spec fn pending_has(items: Seq<(Location, Digit)>, j: int) -> bool {
    exists|k: int| 0 <= k < items.len() && (#[trigger] items[k]).0.index() == j
}

/// `item` collapses a peer of cell `li` whose wave, in `before`, allows only
/// the item's digit beside `d`.
pub open spec fn forced_by(before: Seq<Cell>, li: int, d: int, item: (Location, Digit)) -> bool {
    let (n, e) = item;
    &&& n.is_valid()
    &&& peers(li, n.index())
    &&& before[n.index()] is Uncertain
    &&& 1 <= e <= 9
    &&& forall|x: int| (#[trigger] before[n.index()]->wave.allows(x) && x != d) <==> x == e
}

/// Every pending item names a cell that `s` fills with the item's digit.
pub open spec fn items_hold(items: Seq<(Location, Digit)>, s: Seq<u8>) -> bool {
    forall|k: int| 0 <= k < items.len() ==> s[(#[trigger] items[k]).0.index()] == items[k].1
}

/// Every cell that became certain has had its digit removed from the waves
/// of its sector, but for cells still waiting in `items`.
pub open spec fn propagated_but(before: Seq<Cell>, after: Seq<Cell>, items: Seq<(Location, Digit)>) -> bool {
    forall|i: int, j: int|
        #[trigger] peers(i, j) && after[i] is Certain && !(before[i] is Certain)
            && #[trigger] after[j] is Uncertain ==> !after[j]->wave.allows(after[i]->digit as int)
            || pending_has(items, j)
}

/// A peer of cell `j` that was not certain in `before` holds `x` in `after`.
pub open spec fn removed_by_peer(before: Seq<Cell>, after: Seq<Cell>, j: int, x: int) -> bool {
    exists|i: int| #[trigger] peers(i, j) && after[i] == (Cell::Certain { digit: x as u8 }) && !(before[i] is Certain)
}

/// Fixing cell `li` to `d` touches nothing else: the cell is open, no peer
/// holds `d` or allows it, and every open cell keeps two possibilities.
pub open spec fn quiet_collapse(cells: Seq<Cell>, li: int, d: int) -> bool {
    &&& !(cells[li] is Certain)
    &&& settled(cells)
    &&& forall|j: int|
        #[trigger] peers(li, j) ==> cells[j] != (Cell::Certain { digit: d as u8 }) && !(cells[j] is Uncertain
            && cells[j]->wave.allows(d))
}

/// A wave with two possibilities or more allows a digit other than `e`.
proof fn lemma_not_single(w: WaveFunction, e: int)
    requires
        2 <= w.spec_entropy(),
    ensures
        exists|x: int| #[trigger] w.allows(x) && x != e,
{
    w.lemma_states();
    assert(w.allows(w.states_seq()[0] as int));
    assert(w.allows(w.states_seq()[1] as int));
    if w.states_seq()[0] as int != e {
        assert(w.allows(w.states_seq()[0] as int) && w.states_seq()[0] as int != e);
    } else {
        assert(w.allows(w.states_seq()[1] as int) && w.states_seq()[1] as int != e);
    }
}

/// How a cell reads once the sector of a cell newly fixed to `d` is settled.
pub open spec fn settled_cell(before: Cell, after: Cell, is_peer: bool, d: int) -> bool {
    if is_peer && before is Uncertain {
        ||| after == before
        ||| (after is Uncertain && wave_without(before->wave, after->wave, d) && 2
            <= after->wave.spec_entropy())
    } else {
        after == before
    }
}

proof fn lemma_certain_kept_count(a: Seq<Cell>, b: Seq<Cell>)
    requires
        a.len() == b.len(),
        forall|i: int| 0 <= i < a.len() ==> ((#[trigger] a[i]) is Certain <==> b[i] is Certain),
    ensures
        count_open(a) == count_open(b),
{
    lemma_count_open_monotone(a, b);
    lemma_count_open_monotone(b, a);
}

/// A solution that a refined board admits, the coarser board admits too,
/// but for the one cell left out.
pub proof fn lemma_refines_compatible(before: Seq<Cell>, after: Seq<Cell>, except: int, s: Seq<u8>)
    requires
        before.len() == 81,
        0 <= except < 81,
        refines(before, after, except),
        compatible(after, s),
    ensures
        compatible(before.update(except, Cell::Blank), s),
{
    assert forall|i: int| 0 <= i < 81 implies #[trigger] cell_allows(before.update(except, Cell::Blank)[i], s[i] as int) by {
        assert(cell_allows(after[i], s[i] as int));
        if i != except {
            assert(cell_refines(before[i], after[i]));
        }
    }
}

proof fn lemma_forced_digit(before: Seq<Cell>, li: int, d: int, item: (Location, Digit))
    requires
        forced_by(before, li, d, item),
    ensures
        before[item.0.index()]->wave.allows(item.1 as int),
        item.1 != d,
        forall|x: int| before[item.0.index()]->wave.allows(x) && x != d ==> x == item.1,
{
    let x = item.1 as int;
    assert((before[item.0.index()]->wave.allows(x) && x != d) <==> x == item.1);
}

proof fn lemma_drop_pending(before: Seq<Cell>, cur: Seq<Cell>, items: Seq<(Location, Digit)>, l: Location)
    requires
        items.len() > 0,
        items.last().0 == l,
        l.is_valid(),
        cur.len() == 81,
        cur[l.index()] is Certain,
        propagated_but(before, cur, items),
    ensures
        propagated_but(before, cur, items.drop_last()),
{
    assert forall|i: int, j: int|
        #[trigger] peers(i, j) && cur[i] is Certain && !(before[i] is Certain) && #[trigger] cur[j] is Uncertain
            implies !cur[j]->wave.allows(cur[i]->digit as int) || pending_has(items.drop_last(), j) by {
        if cur[j]->wave.allows(cur[i]->digit as int) {
            let k = choose|k: int| 0 <= k < items.len() && (#[trigger] items[k]).0.index() == j;
            assert(k != items.len() - 1);
            assert(items.drop_last()[k] == items[k]);
        }
    }
}

impl Grid {
    /// Removes `digit` from the waves of the sector of `location`, which holds
    /// it already; a wave left with one digit is queued on `pending` instead.
    /// Fails when a cell of the sector holds `digit` or can hold nothing else.
    fn settle_sector(
        &mut self,
        location: Location,
        digit: Digit,
        pending: &mut Vec<(Location, Digit)>,
    ) -> (r: Result<(), ()>)
        requires
            location.is_valid(),
            1 <= digit <= 9,
            old(self).cells@[location.index()] == (Cell::Certain { digit }),
        ensures
            r is Err ==> exists|j: int|
                peers(location.index(), j) && blocks(#[trigger] old(self).cells@[j], digit as int),
            r is Ok ==> forall|i: int|
                0 <= i < 81 ==> settled_cell(
                    old(self).cells@[i],
                    #[trigger] final(self).cells@[i],
                    peers(location.index(), i),
                    digit as int,
                ),
            r is Ok ==> forall|j: int|
                peers(location.index(), j) ==> old(self).cells@[j] != (Cell::Certain { digit }),
            r is Ok ==> forall|j: int|
                #[trigger] peers(location.index(), j) && final(self).cells@[j] is Uncertain
                    ==> !final(self).cells@[j]->wave.allows(digit as int) || pending_has(
                    final(pending)@,
                    j,
                ),
            r is Ok ==> final(pending)@.len() >= old(pending)@.len() && final(pending)@.subrange(
                0,
                old(pending)@.len() as int,
            ) == old(pending)@,
            r is Ok ==> forall|k: int|
                old(pending)@.len() <= k < final(pending)@.len() ==> forced_by(
                    old(self).cells@,
                    location.index(),
                    digit as int,
                    #[trigger] final(pending)@[k],
                ),
    {
        let ghost g0 = self.cells@;
        let ghost pending_before = pending@;
        let ghost li = location.index();
        proof {
            lemma_sector_exact(location);
        }
        let mut k: usize = 0;
        while k < SECTOR_LEN
            invariant
                k <= 21,
                location.is_valid(),
                li == location.index(),
                1 <= digit <= 9,
                g0 == old(self).cells@,
                pending_before == old(pending)@,
                g0.len() == 81,
                g0[li] == (Cell::Certain { digit }),
                self.cells@.len() == 81,
                forall|i: int|
                    0 <= i < 81 ==> settled_cell(g0[i], #[trigger] self.cells@[i], peers(li, i), digit as int),
                forall|m: int|
                    0 <= m < k ==> #[trigger] sector_at(location, m) != location ==> g0[sector_at(location, m).index()]
                        != (Cell::Certain { digit }),
                forall|m: int|
                    0 <= m < k ==> {
                        let j = (#[trigger] sector_at(location, m)).index();
                        sector_at(location, m) != location && self.cells@[j] is Uncertain
                            ==> !self.cells@[j]->wave.allows(digit as int) || pending_has(pending@, j)
                    },
                pending@.len() >= pending_before.len(),
                pending@.subrange(0, pending_before.len() as int) == pending_before,
                forall|q: int|
                    pending_before.len() <= q < pending@.len() ==> forced_by(g0, li, digit as int, #[trigger] pending@[q]),
            decreases 21 - k,
        {
            let neighbor = sector_cell(location, k);
            let ghost ni = neighbor.index();
            proof {
                lemma_index_bijection(neighbor, 0);
                if neighbor != location {
                    lemma_peers_of_locations(location, neighbor);
                }
                assert(settled_cell(g0[ni], self.cells@[ni], peers(li, ni), digit as int));
            }
            let ghost before = self.cells@;
            let ghost pbefore = pending@;
            match self.get_at(neighbor) {
                Cell::Certain { digit: other } => {
                    if neighbor != location && other == digit {
                        proof {
                            assert(g0[ni] == self.cells@[ni]);
                            assert(peers(li, ni) && blocks(g0[ni], digit as int));
                        }
                        return Err(());
                    }
                },
                Cell::Uncertain { wave } => {
                    let mut reduced = wave;
                    reduced.remove_possibility(digit);
                    proof {
                        reduced.lemma_states();
                        wave.lemma_states();
                    }
                    if reduced.entropy() == 0 {
                        proof {
                            assert forall|x: int| #[trigger] g0[ni]->wave.allows(x) implies x == digit by {
                                if 1 <= x <= 9 && x != digit {
                                    assert(reduced.allows(x));
                                    assert(reduced.states_seq().contains(x as u8));
                                }
                            }
                            assert(peers(li, ni) && blocks(g0[ni], digit as int));
                        }
                        return Err(());
                    }
                    match reduced.collapsed() {
                        Some(newly_collapsed) => {
                            pending.push((neighbor, newly_collapsed));
                            proof {
                                assert forall|x: int| (#[trigger] g0[ni]->wave.allows(x) && x != digit) <==> x == newly_collapsed by {
                                    if g0[ni]->wave.allows(x) && x != digit {
                                        assert(reduced.allows(x));
                                        assert(reduced.states_seq().contains(x as u8));
                                    }
                                    if x == newly_collapsed {
                                        assert(reduced.allows(reduced.states_seq()[0] as int));
                                    }
                                }
                                assert(pending@.subrange(0, pending_before.len() as int) =~= pending_before);
                                assert(pending@[pending@.len() - 1] == (neighbor, newly_collapsed));
                                assert(pending_has(pending@, ni));
                                assert(self.cells@[li] == g0[li]);
                                assert(neighbor != location);
                                assert(peers(li, ni));
                                assert(g0[ni] is Uncertain);
                                assert(forced_by(g0, li, digit as int, (neighbor, newly_collapsed)));
                            }
                        },
                        None => {
                            self.set_at(neighbor, Cell::Uncertain { wave: reduced });
                            proof {
                                assert(wave_without(g0[ni]->wave, reduced, digit as int));
                            }
                        },
                    }
                },
                Cell::Blank => {},
            }
            proof {
                assert forall|m: int|
                    0 <= m < k + 1 implies {
                        let j = (#[trigger] sector_at(location, m)).index();
                        sector_at(location, m) != location && self.cells@[j] is Uncertain
                            ==> !self.cells@[j]->wave.allows(digit as int) || pending_has(pending@, j)
                    } by {
                    let j = sector_at(location, m).index();
                    if m < k && sector_at(location, m) != location && self.cells@[j] is Uncertain && j != ni {
                        if pending_has(pbefore, j) {
                            let q = choose|q: int| 0 <= q < pbefore.len() && (#[trigger] pbefore[q]).0.index() == j;
                            assert(pending@[q] == pbefore[q]);
                        }
                    }
                    if m < k && j == ni && sector_at(location, m) != location && self.cells@[j] is Uncertain {
                        if pending_has(pbefore, j) {
                            let q = choose|q: int| 0 <= q < pbefore.len() && (#[trigger] pbefore[q]).0.index() == j;
                            assert(pending@[q] == pbefore[q]);
                        }
                    }
                }
                assert forall|q: int| pending_before.len() <= q < pending@.len() implies forced_by(g0, li, digit as int, #[trigger] pending@[q]) by {
                    if q < pbefore.len() {
                        assert(pending@[q] == pbefore[q]);
                    }
                }
            }
            assert(pending@.subrange(0, pending_before.len() as int) =~= pending_before);
            k = k + 1;
        }
        proof {
            assert forall|j: int| peers(li, j) implies g0[j] != (Cell::Certain { digit }) by {
                let lj = Location::at_index(j);
                lemma_index_bijection(lj, j);
                lemma_index_bijection(location, 0);
                assert(sector_seq(location).contains(lj));
                let m = choose|m: int| 0 <= m < 21 && sector_seq(location)[m] == lj;
                assert(sector_at(location, m) == lj);
            }
            assert forall|j: int|
                #[trigger] peers(li, j) && self.cells@[j] is Uncertain implies !self.cells@[j]->wave.allows(digit as int)
                    || pending_has(pending@, j) by {
                let lj = Location::at_index(j);
                lemma_index_bijection(lj, j);
                lemma_index_bijection(location, 0);
                assert(sector_seq(location).contains(lj));
                let m = choose|m: int| 0 <= m < 21 && sector_seq(location)[m] == lj;
                assert(sector_at(location, m) == lj);
            }
        }
        Ok(())
    }

    /// Fixes the cell at `location` to `collapsed_digit` and removes that digit
    /// from its sector; every cell left with a single possibility is fixed in
    /// turn, until nothing more follows. Fails on a contradiction: a digit
    /// twice in a sector, or a cell left with no possibility. A cell that
    /// already holds the digit is left as it is.
    pub fn update_collapse(&mut self, location: Location, collapsed_digit: Digit) -> (r: Result<(), ()>)
        requires
            location.is_valid(),
            1 <= collapsed_digit <= 9,
        ensures
            forall|s: Seq<u8>|
                #[trigger] admits(old(self).cells@, s) && s[location.index()] == collapsed_digit ==> r is Ok
                    && admits(final(self).cells@, s),
            old(self).cells@[location.index()] is Certain && old(self).cells@[location.index()] != (Cell::Certain {
                digit: collapsed_digit,
            }) ==> r is Err,
            old(self).cells@[location.index()] == (Cell::Certain { digit: collapsed_digit }) ==> r is Ok
                && final(self).cells@ == old(self).cells@,
            quiet_collapse(old(self).cells@, location.index(), collapsed_digit as int) ==> r is Ok
                && final(self).cells@ == old(self).cells@.update(
                location.index(),
                Cell::Certain { digit: collapsed_digit },
            ),
            r is Ok && !(old(self).cells@[location.index()] is Certain) ==> forall|j: int|
                #[trigger] peers(location.index(), j) ==> old(self).cells@[j] != (Cell::Certain { digit: collapsed_digit }),
            r is Ok ==> final(self).cells@[location.index()] == (Cell::Certain { digit: collapsed_digit }),
            r is Ok ==> refines(old(self).cells@, final(self).cells@, location.index()),
            r is Ok ==> propagated_but(old(self).cells@, final(self).cells@, Seq::empty()),
            r is Ok ==> forall|j: int, x: int|
                0 <= j < 81 && 1 <= x <= 9 && final(self).cells@[j] is Uncertain && old(self).cells@[j] is Uncertain
                    ==> (#[trigger] final(self).cells@[j]->wave.allows(x) <==> old(self).cells@[j]->wave.allows(x)
                    && !removed_by_peer(old(self).cells@, final(self).cells@, j, x)),
            r is Ok && consistent(old(self).cells@) ==> consistent(final(self).cells@),
            r is Ok && digits_in_range(old(self).cells@) ==> digits_in_range(final(self).cells@),
            r is Ok && settled(old(self).cells@) ==> settled(final(self).cells@),
            r is Ok ==> count_open(final(self).cells@) <= count_open(old(self).cells@),
            r is Ok && !(old(self).cells@[location.index()] is Certain) ==> count_open(final(self).cells@)
                < count_open(old(self).cells@),
    {
        let ghost g0 = self.cells@;
        let ghost li = location.index();
        let mut to_collapse: Vec<(Location, Digit)> = Vec::new();
        to_collapse.push((location, collapsed_digit));
        proof {
            lemma_index_bijection(location, 0);
        }
        while to_collapse.len() > 0
            invariant
                location.is_valid(),
                li == location.index(),
                0 <= li < 81,
                1 <= collapsed_digit <= 9,
                g0 == old(self).cells@,
                g0.len() == 81,
                self.cells@.len() == 81,
                forall|k: int|
                    0 <= k < to_collapse@.len() ==> (#[trigger] to_collapse@[k]).0.is_valid() && 1
                        <= to_collapse@[k].1 <= 9,
                forall|k: int|
                    0 <= k < to_collapse@.len() && (#[trigger] to_collapse@[k]).0.index() != li
                        ==> g0[to_collapse@[k].0.index()] is Uncertain && g0[to_collapse@[k].0.index()]->wave.allows(
                        to_collapse@[k].1 as int,
                    ),
                refines(g0, self.cells@, li),
                self.cells@[li] == (Cell::Certain { digit: collapsed_digit }) || (self.cells@ == g0
                    && to_collapse@ == seq![(location, collapsed_digit)]),
                consistent(g0) ==> consistent(self.cells@),
                digits_in_range(g0) ==> digits_in_range(self.cells@),
                settled(g0) ==> settled(self.cells@),
                forall|s: Seq<u8>|
                    admits(g0, s) && s[li] == collapsed_digit ==> #[trigger] admits(self.cells@, s)
                        && items_hold(to_collapse@, s),
                propagated_but(g0, self.cells@, to_collapse@),
                forall|j: int, x: int|
                    0 <= j < 81 && 1 <= x <= 9 && #[trigger] self.cells@[j] is Uncertain && g0[j] is Uncertain
                        && #[trigger] g0[j]->wave.allows(x) && !self.cells@[j]->wave.allows(x)
                        ==> removed_by_peer(g0, self.cells@, j, x),
                count_open(self.cells@) <= count_open(g0),
                !(g0[li] is Certain) && self.cells@[li] is Certain ==> count_open(self.cells@) < count_open(g0),
                g0[li] is Certain && g0[li] != (Cell::Certain { digit: collapsed_digit }) ==> self.cells@ == g0
                    && to_collapse@ == seq![(location, collapsed_digit)],
                g0[li] == (Cell::Certain { digit: collapsed_digit }) ==> self.cells@ == g0 && (to_collapse@
                    == seq![(location, collapsed_digit)] || to_collapse@.len() == 0),
                quiet_collapse(g0, li, collapsed_digit as int) ==> (self.cells@ == g0 && to_collapse@ == seq![
                    (location, collapsed_digit),
                ]) || (self.cells@ == g0.update(li, Cell::Certain { digit: collapsed_digit })
                    && to_collapse@.len() == 0),
                !(g0[li] is Certain) && self.cells@[li] is Certain ==> forall|j: int|
                    #[trigger] peers(li, j) ==> g0[j] != (Cell::Certain { digit: collapsed_digit }),
            decreases count_open(self.cells@), to_collapse@.len(),
        {
            let ghost items = to_collapse@;
            let ghost cur = self.cells@;
            let (l, d) = to_collapse.pop().unwrap();
            let ghost lj = l.index();
            proof {
                lemma_index_bijection(l, 0);
                assert(items[items.len() - 1] == (l, d));
                assert(to_collapse@ == items.drop_last());
            }
            match self.get_at(l) {
                Cell::Certain { digit } => {
                    if digit == d {
                        proof {
                            assert forall|s: Seq<u8>|
                                #![trigger admits(self.cells@, s)]
                                admits(g0, s) && s[li] == collapsed_digit implies admits(self.cells@, s)
                                    && items_hold(to_collapse@, s) by {
                                assert(admits(g0, s) && s[li] == collapsed_digit);
                                assert(admits(cur, s));
                                assert(items_hold(items, s));
                                assert forall|k: int| 0 <= k < to_collapse@.len() implies s[(#[trigger] to_collapse@[k]).0.index()]
                                    == to_collapse@[k].1 by {
                                    assert(to_collapse@[k] == items[k]);
                                }
                            }
                            lemma_drop_pending(g0, self.cells@, items, l);
                            if to_collapse@.len() > 0 {
                                assert(to_collapse@[0] == items[0]);
                            }
                        }
                        continue;
                    }
                    proof {
                        assert forall|s: Seq<u8>| !(admits(g0, s) && s[li] == collapsed_digit) by {
                            if admits(g0, s) && s[li] == collapsed_digit {
                                assert(admits(g0, s) && s[li] == collapsed_digit);
                                assert(admits(cur, s));
                                assert(items_hold(items, s));
                                assert(s[lj] == d);
                                assert(cell_allows(cur[lj], s[lj] as int));
                            }
                        }
                    }
                    return Err(());
                },
                _ => {},
            }
            self.set_at(l, Cell::Certain { digit: d });
            let ghost cur1 = self.cells@;
            proof {
                lemma_count_open_update(cur, lj, Cell::Certain { digit: d });
            }
            match self.settle_sector(l, d, &mut to_collapse) {
                Ok(()) => {},
                Err(()) => {
                    proof {
                        assert forall|s: Seq<u8>| !(admits(g0, s) && s[li] == collapsed_digit) by {
                            if admits(g0, s) && s[li] == collapsed_digit {
                                assert(admits(g0, s) && s[li] == collapsed_digit);
                                assert(admits(cur, s));
                                assert(items_hold(items, s));
                                assert(s[lj] == d);
                                let j = choose|j: int| peers(lj, j) && blocks(#[trigger] cur1[j], d as int);
                                assert(cell_allows(cur[j], s[j] as int));
                                assert(s[lj] != s[j]);
                            }
                        }
                        if quiet_collapse(g0, li, collapsed_digit as int) {
                            assert(cur == g0 && lj == li && d == collapsed_digit);
                            let j = choose|j: int| peers(lj, j) && blocks(#[trigger] cur1[j], d as int);
                            assert(cur1[j] == g0[j]);
                            assert(g0[j] is Uncertain);
                            lemma_not_single(g0[j]->wave, d as int);
                            let x = choose|x: int| #[trigger] g0[j]->wave.allows(x) && x != d;
                            assert(cur1[j]->wave.allows(x));
                        }
                    }
                    return Err(());
                },
            }
            proof {
                let cur2 = self.cells@;
                let items1 = items.drop_last();
                let items2 = to_collapse@;
                assert(!(cur[lj] is Certain));
                assert(lj == li ==> cur == g0 && items == seq![(location, collapsed_digit)]);
                assert(lj != li ==> cur[li] == (Cell::Certain { digit: collapsed_digit }));
                assert forall|k: int| 0 <= k < items1.len() implies #[trigger] items2[k] == items1[k] && items1[k] == items[k] by {
                    assert(items2.subrange(0, items1.len() as int)[k] == items2[k]);
                }
                // cells fixed before stay as they were
                assert forall|i: int| 0 <= i < 81 && (#[trigger] cur2[i]) is Certain implies cur2[i] == cur1[i] by {
                    assert(settled_cell(cur1[i], cur2[i], peers(lj, i), d as int));
                }
                assert forall|i: int| 0 <= i < 81 && (#[trigger] cur1[i]) is Certain implies cur2[i] == cur1[i] by {
                    assert(settled_cell(cur1[i], cur2[i], peers(lj, i), d as int));
                }
                // pending items
                assert forall|k: int| 0 <= k < items2.len() implies (#[trigger] items2[k]).0.is_valid() && 1 <= items2[k].1 <= 9 by {
                    if k < items1.len() {
                        assert(items2[k] == items[k]);
                    }
                }
                assert forall|k: int| 0 <= k < items2.len() && (#[trigger] items2[k]).0.index() != li
                    implies g0[items2[k].0.index()] is Uncertain && g0[items2[k].0.index()]->wave.allows(items2[k].1 as int) by {
                    if k < items1.len() {
                        assert(items2[k] == items[k]);
                    } else {
                        let (n, e) = items2[k];
                        let ni = n.index();
                        assert(forced_by(cur1, lj, d as int, items2[k]));
                        assert(cur1[ni] is Uncertain);
                        assert(ni != lj);
                        assert(cur[ni] == cur1[ni]);
                        assert(cell_refines(g0[ni], cur[ni]));
                        lemma_forced_digit(cur1, lj, d as int, items2[k]);
                        assert(cur1[ni]->wave.allows(e as int) && e != d);
                    }
                }
                // refinement
                assert forall|i: int| 0 <= i < 81 && i != li implies cell_refines(g0[i], #[trigger] cur2[i]) by {
                    assert(settled_cell(cur1[i], cur2[i], peers(lj, i), d as int));
                    if i == lj {
                        assert(items[items.len() - 1].0.index() == lj);
                    } else {
                        assert(cur1[i] == cur[i]);
                        assert(cell_refines(g0[i], cur[i]));
                    }
                }
                assert(refines(g0, cur2, li));
                assert(cur2[li] == (Cell::Certain { digit: collapsed_digit }));
                // consistency
                if consistent(g0) {
                    assert(consistent(cur));
                    assert forall|a: int, b: int|
                        #[trigger] peers(a, b) && cur2[a] is Certain && cur2[b] is Certain implies cur2[a]->digit != cur2[b]->digit by {
                        assert(cur2[a] == cur1[a]);
                        assert(cur2[b] == cur1[b]);
                        if a == lj {
                            assert(cur1[b] != (Cell::Certain { digit: d }));
                        } else if b == lj {
                            assert(peers(lj, a));
                            assert(cur1[a] != (Cell::Certain { digit: d }));
                        } else {
                            assert(cur1[a] == cur[a] && cur1[b] == cur[b]);
                        }
                    }
                }
                if digits_in_range(g0) {
                    assert forall|i: int| 0 <= i < 81 && (#[trigger] cur2[i]) is Certain implies 1 <= cur2[i]->digit <= 9 by {
                        assert(cur2[i] == cur1[i]);
                        if i != lj {
                            assert(cur1[i] == cur[i]);
                        }
                    }
                }
                if settled(g0) {
                    assert forall|i: int| 0 <= i < 81 && (#[trigger] cur2[i]) is Uncertain implies 2 <= cur2[i]->wave.spec_entropy() <= 9 by {
                        assert(settled_cell(cur1[i], cur2[i], peers(lj, i), d as int));
                        cur2[i]->wave.lemma_states();
                        if cur2[i] == cur1[i] {
                            assert(i != lj);
                            assert(cur1[i] == cur[i]);
                        }
                    }
                }
                // no solution is lost
                assert forall|s: Seq<u8>|
                    #![trigger admits(cur2, s)]
                    admits(g0, s) && s[li] == collapsed_digit implies admits(cur2, s)
                        && items_hold(items2, s) by {
                    assert(admits(g0, s) && s[li] == collapsed_digit);
                    assert(admits(cur, s));
                    assert(items_hold(items, s));
                    assert(s[lj] == d);
                    assert forall|i: int| 0 <= i < 81 implies #[trigger] cell_allows(cur2[i], s[i] as int) by {
                        assert(settled_cell(cur1[i], cur2[i], peers(lj, i), d as int));
                        assert(cell_allows(cur[i], s[i] as int));
                        if i != lj && cur2[i] != cur1[i] {
                            assert(peers(lj, i));
                            assert(s[lj] != s[i]);
                            assert(cur1[i] == cur[i]);
                        }
                    }
                    assert forall|k: int| 0 <= k < items2.len() implies s[(#[trigger] items2[k]).0.index()] == items2[k].1 by {
                        if k < items1.len() {
                            assert(items2[k] == items[k]);
                        } else {
                            let (n, e) = items2[k];
                            let ni = n.index();
                            assert(forced_by(cur1, lj, d as int, items2[k]));
                            lemma_forced_digit(cur1, lj, d as int, items2[k]);
                            assert(peers(lj, ni));
                            assert(s[lj] != s[ni]);
                            assert(cur1[ni] == cur[ni]);
                            assert(cell_allows(cur[ni], s[ni] as int));
                            assert(cur1[ni]->wave.allows(s[ni] as int) && s[ni] != d);
                        }
                    }
                }
                // propagation
                assert forall|i: int, j: int|
                    #[trigger] peers(i, j) && cur2[i] is Certain && !(g0[i] is Certain) && #[trigger] cur2[j] is Uncertain
                        implies !cur2[j]->wave.allows(cur2[i]->digit as int) || pending_has(items2, j) by {
                    assert(settled_cell(cur1[j], cur2[j], peers(lj, j), d as int));
                    if i != lj {
                        assert(cur2[i] == cur1[i] && cur1[i] == cur[i]);
                        assert(j != lj);
                        assert(cur1[j] == cur[j]);
                        if cur[j]->wave.allows(cur[i]->digit as int) && cur2[j]->wave.allows(cur2[i]->digit as int) {
                            assert(pending_has(items, j));
                            let k = choose|k: int| 0 <= k < items.len() && (#[trigger] items[k]).0.index() == j;
                            assert(k != items.len() - 1);
                            assert(items2[k] == items[k]);
                        }
                    }
                }
                // waves lose only the digits of newly fixed peers
                assert forall|j: int, x: int|
                    0 <= j < 81 && 1 <= x <= 9 && #[trigger] cur2[j] is Uncertain && g0[j] is Uncertain
                        && #[trigger] g0[j]->wave.allows(x) && !cur2[j]->wave.allows(x)
                        implies removed_by_peer(g0, cur2, j, x) by {
                    assert(settled_cell(cur1[j], cur2[j], peers(lj, j), d as int));
                    assert(j != lj);
                    assert(cur1[j] == cur[j]);
                    if x == d && cur[j]->wave.allows(x) {
                        assert(peers(lj, j));
                        assert(cur2[lj] == (Cell::Certain { digit: d }));
                        assert(!(g0[lj] is Certain));
                        assert(peers(lj, j) && cur2[lj] == (Cell::Certain { digit: x as u8 }) && !(g0[lj] is Certain));
                    } else {
                        assert(!cur[j]->wave.allows(x));
                        assert(removed_by_peer(g0, cur, j, x));
                        let i = choose|i: int| #[trigger] peers(i, j) && cur[i] == (Cell::Certain { digit: x as u8 }) && !(g0[i] is Certain);
                        assert(i != lj);
                        assert(cur1[i] == cur[i]);
                        assert(cur2[i] == cur1[i]);
                        assert(peers(i, j) && cur2[i] == (Cell::Certain { digit: x as u8 }) && !(g0[i] is Certain));
                    }
                }
                lemma_certain_kept_count(cur1, cur2);
                // the first collapse records that no peer held the digit
                if lj == li {
                    assert forall|j: int| #[trigger] peers(li, j) implies g0[j] != (Cell::Certain { digit: collapsed_digit }) by {
                        assert(cur1[j] != (Cell::Certain { digit: d }));
                        assert(cur1[j] == cur[j]);
                    }
                }
                // a quiet collapse changes only its own cell
                if quiet_collapse(g0, li, collapsed_digit as int) {
                    assert(cur == g0 && items == seq![(location, collapsed_digit)]);
                    assert(lj == li && d == collapsed_digit);
                    assert(items1.len() == 0);
                    if items2.len() > 0 {
                        assert(forced_by(cur1, lj, d as int, items2[0]));
                        let n = items2[0].0.index();
                        assert(cur1[n] == g0[n]);
                        assert(!g0[n]->wave.allows(d as int));
                        lemma_forced_digit(cur1, lj, d as int, items2[0]);
                        assert forall|x: int| #[trigger] g0[n]->wave.allows(x) <==> x == items2[0].1 by {
                            if x == items2[0].1 {
                                assert(cur1[n]->wave.allows(x));
                            }
                        }
                        lemma_not_single(g0[n]->wave, items2[0].1 as int);
                        let x = choose|x: int| #[trigger] g0[n]->wave.allows(x) && x != items2[0].1;
                        assert(g0[n]->wave.allows(x));
                    }
                    assert forall|i: int| 0 <= i < 81 implies #[trigger] cur2[i] == cur1[i] by {
                        assert(settled_cell(cur1[i], cur2[i], peers(lj, i), d as int));
                        if cur2[i] != cur1[i] {
                            assert(cur1[i] == g0[i]);
                            assert(!g0[i]->wave.allows(d as int));
                            assert forall|x: int| 1 <= x <= 9 implies (cur2[i]->wave.allows(x) <==> cur1[i]->wave.allows(x)) by {}
                            cur2[i]->wave.lemma_ext(cur1[i]->wave);
                        }
                    }
                    assert(cur2 =~= cur1);
                }
            }
        }
        proof {
            let fin = self.cells@;
            assert forall|j: int, x: int|
                0 <= j < 81 && 1 <= x <= 9 && fin[j] is Uncertain && g0[j] is Uncertain
                    implies (#[trigger] fin[j]->wave.allows(x) <==> g0[j]->wave.allows(x)
                    && !removed_by_peer(g0, fin, j, x)) by {
                assert(cell_refines(g0[j], fin[j]) || j == li);
                if j == li {
                    assert(fin[li] is Certain);
                }
                if fin[j]->wave.allows(x) && removed_by_peer(g0, fin, j, x) {
                    let i = choose|i: int| #[trigger] peers(i, j) && fin[i] == (Cell::Certain { digit: x as u8 }) && !(g0[i] is Certain);
                    assert(!fin[j]->wave.allows(fin[i]->digit as int) || pending_has(to_collapse@, j));
                }
            }
        }
        Ok(())
    }
}

} // verus!
