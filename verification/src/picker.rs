//! The order in which the search tries moves.

use crate::history::MAX_QUIET_HISTORY;
use crate::moves::EngineMove;
use vstd::multiset::Multiset;
use vstd::prelude::*;
use vstd::seq_lib::{
    lemma_multiset_commutative, to_multiset_build, to_multiset_contains, to_multiset_update,
};

verus! {

/// The moves of a position, sorted by what they are: captures that lose
/// nothing (and the move from the table, whatever it is), captures that lose
/// material, and the rest.
pub struct MoveList {
    pub good_captures: Vec<EngineMove>,
    pub bad_captures: Vec<EngineMove>,
    pub quiets: Vec<EngineMove>,
}

/// The moves of a list as sequences.
#[verifier::ext_equal]
pub struct Moves {
    pub good: Seq<EngineMove>,
    pub bad: Seq<EngineMove>,
    pub quiets: Seq<EngineMove>,
}

impl Moves {
    /// All moves: the good captures, the quiet moves, the bad captures.
    pub open spec fn all(self) -> Seq<EngineMove> {
        self.good + self.quiets + self.bad
    }
}

impl View for MoveList {
    type V = Moves;

    open spec fn view(&self) -> Moves {
        Moves { good: self.good_captures@, bad: self.bad_captures@, quiets: self.quiets@ }
    }
}

impl MoveList {
    /// An empty list. The quiescence search has few quiet moves.
    pub fn new(qsearch: bool) -> (r: MoveList)
        ensures
            r@.all() == Seq::<EngineMove>::empty(),
            r@.good.len() == 0,
            r@.bad.len() == 0,
            r@.quiets.len() == 0,
    {
        let list = MoveList {
            good_captures: Vec::new(),
            bad_captures: Vec::new(),
            quiets: Vec::with_capacity(
                if qsearch {
                    0
                } else {
                    64
                },
            ),
        };
        assert(list@.all() =~= Seq::<EngineMove>::empty());
        list
    }

    pub fn is_empty(&self) -> (r: bool)
        ensures
            r == (self@.all().len() == 0),
    {
        self.good_captures.len() == 0 && self.bad_captures.len() == 0 && self.quiets.len() == 0
    }

    pub fn len(&self) -> (r: usize)
        requires
            self@.all().len() <= usize::MAX,
        ensures
            r == self@.all().len(),
    {
        self.good_captures.len() + self.quiets.len() + self.bad_captures.len()
    }

    /// All moves in their order.
    pub fn iter(&self) -> (r: Vec<EngineMove>)
        ensures
            r@ == self@.all(),
    {
        let mut moves: Vec<EngineMove> = Vec::new();
        copy_moves(&self.good_captures, &mut moves);
        copy_moves(&self.quiets, &mut moves);
        copy_moves(&self.bad_captures, &mut moves);
        assert(moves@ =~= self@.all());
        moves
    }

    /// The move with a number, in their order.
    pub fn get(&self, index: usize) -> (r: EngineMove)
        requires
            index < self@.all().len(),
        ensures
            r == self@.all()[index as int],
    {
        if index < self.good_captures.len() {
            return self.good_captures[index];
        }
        let index: usize = index - self.good_captures.len();
        if index < self.quiets.len() {
            return self.quiets[index];
        }
        self.bad_captures[index - self.quiets.len()]
    }

    /// A list of the same moves.
    pub fn copy(&self) -> (r: MoveList)
        ensures
            r@ == self@,
    {
        let mut good_captures: Vec<EngineMove> = Vec::new();
        let mut bad_captures: Vec<EngineMove> = Vec::new();
        let mut quiets: Vec<EngineMove> = Vec::new();
        copy_moves(&self.good_captures, &mut good_captures);
        copy_moves(&self.bad_captures, &mut bad_captures);
        copy_moves(&self.quiets, &mut quiets);
        assert(good_captures@ =~= self.good_captures@);
        assert(bad_captures@ =~= self.bad_captures@);
        assert(quiets@ =~= self.quiets@);
        MoveList { good_captures, bad_captures, quiets }
    }
}

/// Puts some moves behind others.
fn copy_moves(moves: &Vec<EngineMove>, out: &mut Vec<EngineMove>)
    ensures
        final(out)@ == old(out)@ + moves@,
{
    let mut i: usize = 0;
    while i < moves.len()
        invariant
            i <= moves@.len(),
            out@ == old(out)@ + moves@.take(i as int),
        decreases moves@.len() - i,
    {
        out.push(moves[i]);
        i = i + 1;
        assert(moves@.take(i as int) =~= moves@.take(i - 1).push(moves@[i - 1]));
    }
    assert(moves@.take(i as int) =~= moves@);
}

/// By what the best move of a list is chosen.
#[derive(Clone, Copy, Debug, PartialEq, Eq, Structural)]
pub enum Order {
    Captures,
    Quiets,
    BadCaptures,
}

/// The number by which a move is chosen.
pub open spec fn rating(order: Order, mv: EngineMove) -> int {
    match order {
        Order::Captures => if mv.is_tt {
            i32::MAX as int
        } else {
            mv.see_score as int
        },
        Order::Quiets => if mv.promotion {
            mv.material_value + 8 * MAX_QUIET_HISTORY
        } else {
            mv.history as int
        },
        Order::BadCaptures => mv.see_score as int,
    }
}

fn rate(order: Order, mv: &EngineMove) -> (r: i64)
    ensures
        r == rating(order, *mv),
{
    match order {
        Order::Captures => if mv.is_tt {
            i32::MAX as i64
        } else {
            mv.see_score as i64
        },
        Order::Quiets => if mv.promotion {
            mv.material_value as i64 + 8 * MAX_QUIET_HISTORY as i64
        } else {
            mv.history as i64
        },
        Order::BadCaptures => mv.see_score as i64,
    }
}

/// Whether a move is the first of those that no other among the first `n`
/// beats.
pub open spec fn is_first_best(moves: Seq<EngineMove>, order: Order, n: int, best: int) -> bool {
    &&& 0 <= best < n
    &&& forall|i: int|
        0 <= i < n ==> rating(order, #[trigger] moves[i]) <= rating(order, moves[best])
    &&& forall|i: int|
        0 <= i < best ==> rating(order, #[trigger] moves[i]) < rating(order, moves[best])
}

/// The first of the best moves among the first `n`.
pub open spec fn first_best(moves: Seq<EngineMove>, order: Order, n: int) -> int {
    choose|best: int| is_first_best(moves, order, n, best)
}

proof fn lemma_first_best(moves: Seq<EngineMove>, order: Order, n: int, best: int)
    requires
        is_first_best(moves, order, n, best),
    ensures
        first_best(moves, order, n) == best,
{
    let other = first_best(moves, order, n);
    assert(is_first_best(moves, order, n, other));
    if other < best {
        assert(rating(order, moves[other]) < rating(order, moves[best]));
        assert(rating(order, moves[best]) <= rating(order, moves[other]));
    } else if best < other {
        assert(rating(order, moves[best]) < rating(order, moves[other]));
        assert(rating(order, moves[other]) <= rating(order, moves[best]));
    }
}

/// There is always a first best move.
pub proof fn lemma_first_best_exists(moves: Seq<EngineMove>, order: Order, n: int)
    requires
        0 < n <= moves.len(),
    ensures
        is_first_best(moves, order, n, first_best(moves, order, n)),
    decreases n,
{
    if n == 1 {
        assert(is_first_best(moves, order, 1, 0));
    } else {
        lemma_first_best_exists(moves, order, n - 1);
        let b = first_best(moves, order, n - 1);
        if rating(order, moves[n - 1]) > rating(order, moves[b]) {
            assert(is_first_best(moves, order, n, n - 1));
        } else {
            assert(is_first_best(moves, order, n, b));
        }
    }
}

fn find_best(moves: &Vec<EngineMove>, order: Order, n: usize) -> (r: usize)
    requires
        0 < n <= moves@.len(),
    ensures
        r == first_best(moves@, order, n as int),
        r < n,
{
    let mut best: usize = 0;
    let mut best_rating: i64 = rate(order, &moves[0]);
    let mut i: usize = 1;
    while i < n
        invariant
            1 <= i <= n <= moves@.len(),
            is_first_best(moves@, order, i as int, best as int),
            best_rating == rating(order, moves@[best as int]),
        decreases n - i,
    {
        let here: i64 = rate(order, &moves[i]);
        if here > best_rating {
            best = i;
            best_rating = here;
        }
        i = i + 1;
    }
    proof {
        lemma_first_best(moves@, order, n as int, best as int);
    }
    best
}

/// A list without one of its moves, whose place the last one takes.
pub open spec fn swap_removed(moves: Seq<EngineMove>, i: int) -> Seq<EngineMove> {
    moves.update(i, moves.last()).drop_last()
}

/// A list with two of its moves exchanged.
pub open spec fn exchanged(moves: Seq<EngineMove>, i: int, j: int) -> Seq<EngineMove> {
    moves.update(i, moves[j]).update(j, moves[i])
}

#[derive(Clone, Copy, Debug, PartialEq, Eq, Structural)]
pub enum Stage {
    TtMove,
    GoodCaptures,
    Quiets,
    BadCaptures,
    Done,
}

/// Hands out the moves of a list, the most promising first. The quiet moves
/// that were handed out stand behind those that were not.
pub struct MovePicker {
    pub stage: Stage,
    pub tt_move: Option<EngineMove>,
    pub good_captures: Vec<EngineMove>,
    pub quiets: Vec<EngineMove>,
    pub bad_captures: Vec<EngineMove>,
    pub tried_captures: Vec<EngineMove>,
    pub quiet_remaining: usize,
}

/// A picker as a value.
#[verifier::ext_equal]
pub struct Picker {
    pub stage: Stage,
    pub tt_move: Option<EngineMove>,
    pub good: Seq<EngineMove>,
    pub quiets: Seq<EngineMove>,
    pub bad: Seq<EngineMove>,
    pub tried: Seq<EngineMove>,
    pub remaining: int,
}

impl Picker {
    pub open spec fn wf(self) -> bool {
        0 <= self.remaining <= self.quiets.len()
    }

    /// How many moves can still come.
    pub open spec fn left(self) -> nat {
        (match self.stage {
            Stage::TtMove => (if self.tt_move is Some {
                1nat
            } else {
                0nat
            }) + self.good.len() + self.remaining + self.bad.len(),
            Stage::GoodCaptures => self.good.len() + self.remaining + self.bad.len(),
            Stage::Quiets => self.remaining + self.bad.len(),
            Stage::BadCaptures => self.bad.len() as int,
            Stage::Done => 0,
        }) as nat
    }

    /// The quiet moves that were handed out.
    pub open spec fn tried_quiets(self) -> Seq<EngineMove> {
        self.quiets.subrange(self.remaining, self.quiets.len() as int)
    }
}

/// A picker after it was asked for a bad capture, and what it gave.
pub open spec fn pick_bad(p: Picker) -> (Picker, Option<EngineMove>) {
    if p.bad.len() == 0 {
        (Picker { stage: Stage::Done, ..p }, None)
    } else {
        let i = first_best(p.bad, Order::BadCaptures, p.bad.len() as int);
        (Picker { bad: swap_removed(p.bad, i), tried: p.tried.push(p.bad[i]), ..p }, Some(p.bad[i]))
    }
}

/// A picker after it was asked for a quiet move, and what it gave.
pub open spec fn pick_quiet(p: Picker) -> (Picker, Option<EngineMove>) {
    if p.remaining == 0 {
        pick_bad(Picker { stage: Stage::BadCaptures, ..p })
    } else {
        let i = first_best(p.quiets, Order::Quiets, p.remaining);
        (
            Picker {
                quiets: exchanged(p.quiets, i, p.remaining - 1),
                remaining: p.remaining - 1,
                ..p
            },
            Some(p.quiets[i]),
        )
    }
}

/// A picker after it was asked for a good capture, and what it gave.
pub open spec fn pick_good(p: Picker) -> (Picker, Option<EngineMove>) {
    if p.good.len() == 0 {
        pick_quiet(Picker { stage: Stage::Quiets, ..p })
    } else {
        let i = first_best(p.good, Order::Captures, p.good.len() as int);
        (
            Picker { good: swap_removed(p.good, i), tried: p.tried.push(p.good[i]), ..p },
            Some(p.good[i]),
        )
    }
}

/// A picker after it was asked for a move, and what it gave.
pub open spec fn pick(p: Picker) -> (Picker, Option<EngineMove>) {
    match p.stage {
        Stage::TtMove => match p.tt_move {
            Some(mv) => (Picker { stage: Stage::GoodCaptures, tt_move: None, ..p }, Some(mv)),
            None => pick_good(Picker { stage: Stage::GoodCaptures, ..p }),
        },
        Stage::GoodCaptures => pick_good(p),
        Stage::Quiets => pick_quiet(p),
        Stage::BadCaptures => pick_bad(p),
        Stage::Done => (p, None),
    }
}

/// The place of the first move from the table.
pub open spec fn tt_place(moves: Seq<EngineMove>, from: int) -> Option<int>
    decreases moves.len() - from,
{
    if from < 0 || from >= moves.len() {
        None
    } else if moves[from].is_tt {
        Some(from)
    } else {
        tt_place(moves, from + 1)
    }
}

/// The picker of a list of moves.
pub open spec fn picker_of(moves: Moves) -> Picker {
    match tt_place(moves.good, 0) {
        Some(i) => Picker {
            stage: Stage::TtMove,
            tt_move: Some(moves.good[i]),
            good: swap_removed(moves.good, i),
            quiets: moves.quiets,
            bad: moves.bad,
            tried: Seq::empty(),
            remaining: moves.quiets.len() as int,
        },
        None => Picker {
            stage: Stage::GoodCaptures,
            tt_move: None,
            good: moves.good,
            quiets: moves.quiets,
            bad: moves.bad,
            tried: Seq::empty(),
            remaining: moves.quiets.len() as int,
        },
    }
}

impl View for MovePicker {
    type V = Picker;

    open spec fn view(&self) -> Picker {
        Picker {
            stage: self.stage,
            tt_move: self.tt_move,
            good: self.good_captures@,
            quiets: self.quiets@,
            bad: self.bad_captures@,
            tried: self.tried_captures@,
            remaining: self.quiet_remaining as int,
        }
    }
}

impl MovePicker {
    pub fn new(moves: MoveList) -> (r: MovePicker)
        ensures
            r@ == picker_of(moves@),
            r@.wf(),
    {
        let ghost good = moves.good_captures@;
        let mut good_captures: Vec<EngineMove> = moves.good_captures;
        let mut i: usize = 0;
        while i < good_captures.len() && !good_captures[i].is_tt
            invariant
                i <= good_captures@.len(),
                good_captures@ == good,
                tt_place(good, 0) == tt_place(good, i as int),
            decreases good_captures@.len() - i,
        {
            i = i + 1;
        }
        let quiet_remaining: usize = moves.quiets.len();
        let mut tt_move: Option<EngineMove> = None;
        if i < good_captures.len() {
            tt_move = Some(good_captures.swap_remove(i));
        }
        let picker = MovePicker {
            stage: if tt_move.is_some() {
                Stage::TtMove
            } else {
                Stage::GoodCaptures
            },
            tt_move,
            good_captures,
            quiets: moves.quiets,
            bad_captures: moves.bad_captures,
            tried_captures: Vec::new(),
            quiet_remaining,
        };
        assert(picker@ =~= picker_of(moves@));
        picker
    }

    fn next_bad(&mut self) -> (r: Option<EngineMove>)
        requires
            old(self)@.wf(),
            old(self)@.stage == Stage::BadCaptures,
        ensures
            (final(self)@, r) == pick_bad(old(self)@),
            final(self)@.wf(),
    {
        if self.bad_captures.len() == 0 {
            self.stage = Stage::Done;
            return None;
        }
        let i: usize = find_best(&self.bad_captures, Order::BadCaptures, self.bad_captures.len());
        let mv: EngineMove = self.bad_captures.swap_remove(i);
        self.tried_captures.push(mv);
        Some(mv)
    }

    fn next_quiet(&mut self) -> (r: Option<EngineMove>)
        requires
            old(self)@.wf(),
            old(self)@.stage == Stage::Quiets,
        ensures
            (final(self)@, r) == pick_quiet(old(self)@),
            final(self)@.wf(),
    {
        if self.quiet_remaining == 0 {
            self.stage = Stage::BadCaptures;
            return self.next_bad();
        }
        let i: usize = find_best(&self.quiets, Order::Quiets, self.quiet_remaining);
        let last: usize = self.quiet_remaining - 1;
        let mv: EngineMove = self.quiets[i];
        let other: EngineMove = self.quiets[last];
        self.quiets[i] = other;
        self.quiets[last] = mv;
        self.quiet_remaining = last;
        Some(mv)
    }

    fn next_good(&mut self) -> (r: Option<EngineMove>)
        requires
            old(self)@.wf(),
            old(self)@.stage == Stage::GoodCaptures,
        ensures
            (final(self)@, r) == pick_good(old(self)@),
            final(self)@.wf(),
    {
        if self.good_captures.len() == 0 {
            self.stage = Stage::Quiets;
            return self.next_quiet();
        }
        let i: usize = find_best(&self.good_captures, Order::Captures, self.good_captures.len());
        let mv: EngineMove = self.good_captures.swap_remove(i);
        self.tried_captures.push(mv);
        Some(mv)
    }

    /// The next move, if one is left.
    pub fn next(&mut self) -> (r: Option<EngineMove>)
        requires
            old(self)@.wf(),
        ensures
            (final(self)@, r) == pick(old(self)@),
            final(self)@.wf(),
    {
        match self.stage {
            Stage::TtMove => {
                self.stage = Stage::GoodCaptures;
                match self.tt_move {
                    Some(mv) => {
                        self.tt_move = None;
                        Some(mv)
                    },
                    None => self.next_good(),
                }
            },
            Stage::GoodCaptures => self.next_good(),
            Stage::Quiets => self.next_quiet(),
            Stage::BadCaptures => self.next_bad(),
            Stage::Done => None,
        }
    }

    /// Goes on with the bad captures, whatever else is left.
    pub fn skip_to_bad_captures(&mut self)
        requires
            old(self)@.wf(),
        ensures
            final(self)@ == (Picker { stage: Stage::BadCaptures, ..old(self)@ }),
            final(self)@.wf(),
    {
        self.stage = Stage::BadCaptures;
    }

    /// The quiet moves that were handed out.
    pub fn tried_quiets(&self) -> (r: Vec<EngineMove>)
        requires
            self@.wf(),
        ensures
            r@ == self@.tried_quiets(),
    {
        let mut tried: Vec<EngineMove> = Vec::new();
        let mut i: usize = self.quiet_remaining;
        while i < self.quiets.len()
            invariant
                self@.wf(),
                self.quiet_remaining <= i <= self.quiets@.len(),
                tried@ == self.quiets@.subrange(self.quiet_remaining as int, i as int),
            decreases self.quiets@.len() - i,
        {
            tried.push(self.quiets[i]);
            i = i + 1;
            assert(tried@ =~= self.quiets@.subrange(self.quiet_remaining as int, i as int));
        }
        tried
    }
}

/// The moves that can still come.
pub open spec fn available(p: Picker) -> Multiset<EngineMove> {
    let quiets = p.quiets.take(p.remaining).to_multiset();
    let bad = p.bad.to_multiset();
    match p.stage {
        Stage::TtMove => {
            let rest = p.good.to_multiset().add(quiets).add(bad);
            match p.tt_move {
                Some(mv) => rest.insert(mv),
                None => rest,
            }
        },
        Stage::GoodCaptures => p.good.to_multiset().add(quiets).add(bad),
        Stage::Quiets => quiets.add(bad),
        Stage::BadCaptures => bad,
        Stage::Done => Multiset::empty(),
    }
}

proof fn lemma_no_moves(moves: Seq<EngineMove>)
    requires
        moves.len() == 0,
    ensures
        moves.to_multiset() == Multiset::<EngineMove>::empty(),
{
    broadcast use vstd::multiset::group_multiset_axioms;

    assert forall|mv: EngineMove| moves.to_multiset().count(mv) == 0 by {
        to_multiset_contains(moves, mv);
    }
    assert(moves.to_multiset() =~= Multiset::<EngineMove>::empty());
}

proof fn lemma_swap_removed(moves: Seq<EngineMove>, i: int)
    requires
        0 <= i < moves.len(),
    ensures
        moves.to_multiset() == swap_removed(moves, i).to_multiset().insert(moves[i]),
{
    broadcast use vstd::multiset::group_multiset_axioms;
    broadcast use vstd::multiset::group_multiset_properties;

    let rest = moves.drop_last();
    let last = moves.last();
    assert(moves =~= rest.push(last));
    to_multiset_build(rest, last);
    if i == moves.len() - 1 {
        assert(swap_removed(moves, i) =~= rest);
    } else {
        assert(swap_removed(moves, i) =~= rest.update(i, last));
        to_multiset_update(rest, i, last);
        to_multiset_contains(rest, rest[i]);
        assert(rest.contains(rest[i]));
        assert(moves.to_multiset() =~= swap_removed(moves, i).to_multiset().insert(moves[i]));
    }
}

proof fn lemma_exchanged(moves: Seq<EngineMove>, i: int, n: int)
    requires
        0 <= i < n <= moves.len(),
    ensures
        moves.take(n).to_multiset() == exchanged(moves, i, n - 1).take(n - 1).to_multiset().insert(
            moves[i],
        ),
{
    lemma_swap_removed(moves.take(n), i);
    assert(swap_removed(moves.take(n), i) =~= exchanged(moves, i, n - 1).take(n - 1));
}

/// A picker that gives a move gives one that can still come, and takes it
/// from those that can; one that gives none has none.
pub proof fn picked_move_was_available(p: Picker)
    requires
        p.wf(),
    ensures
        pick(p).0.wf(),
        match pick(p).1 {
            Some(mv) => available(p) == available(pick(p).0).insert(mv),
            None => available(p) == Multiset::<EngineMove>::empty(),
        },
{
    broadcast use vstd::multiset::group_multiset_axioms;
    broadcast use vstd::multiset::group_multiset_properties;

    lemma_picked(p);
    if p.remaining > 0 {
        lemma_first_best_exists(p.quiets, Order::Quiets, p.remaining);
        lemma_exchanged(
            p.quiets,
            first_best(p.quiets, Order::Quiets, p.remaining),
            p.remaining,
        );
    } else {
        lemma_no_moves(p.quiets.take(0));
    }
    if p.good.len() > 0 {
        lemma_first_best_exists(p.good, Order::Captures, p.good.len() as int);
        lemma_swap_removed(p.good, first_best(p.good, Order::Captures, p.good.len() as int));
    } else {
        lemma_no_moves(p.good);
    }
    if p.bad.len() > 0 {
        lemma_first_best_exists(p.bad, Order::BadCaptures, p.bad.len() as int);
        lemma_swap_removed(p.bad, first_best(p.bad, Order::BadCaptures, p.bad.len() as int));
    } else {
        lemma_no_moves(p.bad);
    }
    let q = pick(p).0;
    match pick(p).1 {
        Some(mv) => {
            assert(available(p) =~= available(q).insert(mv));
        },
        None => {
            assert(available(p) =~= Multiset::<EngineMove>::empty());
        },
    }
}

/// What a picker of a list can give is what the list holds.
pub proof fn new_picker_has_every_move(moves: Moves)
    ensures
        picker_of(moves).wf(),
        available(picker_of(moves)) == moves.all().to_multiset(),
{
    broadcast use vstd::multiset::group_multiset_axioms;
    broadcast use vstd::multiset::group_multiset_properties;

    lemma_multiset_commutative(moves.good + moves.quiets, moves.bad);
    lemma_multiset_commutative(moves.good, moves.quiets);
    assert(moves.quiets.take(moves.quiets.len() as int) =~= moves.quiets);
    lemma_tt_place(moves.good, 0);
    if let Some(i) = tt_place(moves.good, 0) {
        lemma_swap_removed(moves.good, i);
    }
    assert(available(picker_of(moves)) =~= moves.all().to_multiset());
}

pub proof fn lemma_tt_place(moves: Seq<EngineMove>, from: int)
    requires
        0 <= from,
    ensures
        tt_place(moves, from) matches Some(i) ==> from <= i < moves.len() && moves[i].is_tt,
        tt_place(moves, from) is None ==> forall|i: int|
            from <= i < moves.len() ==> !(#[trigger] moves[i]).is_tt,
    decreases moves.len() - from,
{
    if from < moves.len() && !moves[from].is_tt {
        lemma_tt_place(moves, from + 1);
    }
}

/// Each move that a picker gives leaves fewer to come.
pub proof fn lemma_picked(p: Picker)
    requires
        p.wf(),
    ensures
        pick(p).0.wf(),
        pick(p).1 is None <==> p.left() == 0,
        pick(p).1 is Some ==> pick(p).0.left() < p.left(),
{
    if p.bad.len() > 0 {
        lemma_first_best_exists(p.bad, Order::BadCaptures, p.bad.len() as int);
    }
    if p.good.len() > 0 {
        lemma_first_best_exists(p.good, Order::Captures, p.good.len() as int);
    }
    if p.remaining > 0 {
        lemma_first_best_exists(p.quiets, Order::Quiets, p.remaining);
    }
}

/// The moves that a picker gives, call after call, until it gives none.
pub open spec fn given(p: Picker) -> Seq<EngineMove>
    decreases p.left(),
        when p.wf()
{
    proof {
        lemma_picked(p);
    }
    match pick(p).1 {
        Some(mv) => seq![mv] + given(pick(p).0),
        None => Seq::empty(),
    }
}

/// A picker that was asked until it gives none.
pub open spec fn used_up(p: Picker) -> Picker
    decreases p.left(),
        when p.wf()
{
    proof {
        lemma_picked(p);
    }
    if pick(p).1 is Some {
        used_up(pick(p).0)
    } else {
        pick(p).0
    }
}

/// The moves of a group, the best of those that are left each time.
pub open spec fn ranked(moves: Seq<EngineMove>, order: Order) -> Seq<EngineMove>
    decreases moves.len(),
{
    if moves.len() == 0 {
        Seq::empty()
    } else {
        proof {
            lemma_first_best_exists(moves, order, moves.len() as int);
        }
        let i = first_best(moves, order, moves.len() as int);
        seq![moves[i]] + ranked(swap_removed(moves, i), order)
    }
}

/// Whether no move is rated higher than one before it.
pub open spec fn falling(moves: Seq<EngineMove>, order: Order) -> bool {
    forall|i: int, j: int|
        0 <= i <= j < moves.len() ==> rating(order, #[trigger] moves[i]) >= rating(
            order,
            #[trigger] moves[j],
        )
}

proof fn lemma_ranked_bound(moves: Seq<EngineMove>, order: Order, most: int)
    requires
        forall|i: int| 0 <= i < moves.len() ==> rating(order, #[trigger] moves[i]) <= most,
    ensures
        forall|i: int|
            0 <= i < ranked(moves, order).len() ==> rating(order, #[trigger] ranked(moves, order)[i])
                <= most,
    decreases moves.len(),
{
    if moves.len() > 0 {
        let n = moves.len() as int;
        lemma_first_best_exists(moves, order, n);
        let b = first_best(moves, order, n);
        let rest = swap_removed(moves, b);
        assert forall|i: int| 0 <= i < rest.len() implies rating(order, #[trigger] rest[i])
            <= most by {
            assert(rest[i] == if i == b {
                moves[n - 1]
            } else {
                moves[i]
            });
        }
        lemma_ranked_bound(rest, order, most);
        let after = ranked(rest, order);
        assert(ranked(moves, order) =~= seq![moves[b]] + after);
        assert forall|i: int| 0 <= i < ranked(moves, order).len() implies rating(
            order,
            #[trigger] ranked(moves, order)[i],
        ) <= most by {
            if i > 0 {
                assert(ranked(moves, order)[i] == after[i - 1]);
            }
        }
    }
}

/// A group that is given best first is given whole, by falling ratings.
pub proof fn ranked_moves_fall(moves: Seq<EngineMove>, order: Order)
    ensures
        ranked(moves, order).len() == moves.len(),
        ranked(moves, order).to_multiset() == moves.to_multiset(),
        falling(ranked(moves, order), order),
    decreases moves.len(),
{
    broadcast use vstd::multiset::group_multiset_axioms;
    broadcast use vstd::multiset::group_multiset_properties;

    let r = ranked(moves, order);
    if moves.len() == 0 {
        lemma_no_moves(moves);
        lemma_no_moves(r);
    } else {
        let n = moves.len() as int;
        lemma_first_best_exists(moves, order, n);
        let b = first_best(moves, order, n);
        let best = moves[b];
        let rest = swap_removed(moves, b);
        let after = ranked(rest, order);
        ranked_moves_fall(rest, order);
        lemma_swap_removed(moves, b);
        assert(r == seq![best] + after);
        lemma_multiset_commutative(seq![best], after);
        assert(seq![best].to_multiset() =~= Multiset::<EngineMove>::empty().insert(best)) by {
            assert(seq![best] =~= Seq::<EngineMove>::empty().push(best));
            lemma_no_moves(Seq::<EngineMove>::empty());
            to_multiset_build(Seq::<EngineMove>::empty(), best);
        }
        assert(r.to_multiset() =~= moves.to_multiset());
        assert forall|i: int| 0 <= i < rest.len() implies rating(order, #[trigger] rest[i])
            <= rating(order, best) by {
            assert(rest[i] == if i == b {
                moves[n - 1]
            } else {
                moves[i]
            });
        }
        lemma_ranked_bound(rest, order, rating(order, best));
        assert forall|i: int, j: int| 0 <= i <= j < r.len() implies rating(order, #[trigger] r[i])
            >= rating(order, #[trigger] r[j]) by {
            if j > 0 {
                assert(r[j] == after[j - 1]);
                if i > 0 {
                    assert(r[i] == after[i - 1]);
                }
            }
        }
    }
}

proof fn lemma_given_bad(p: Picker)
    requires
        p.wf(),
        p.stage == Stage::BadCaptures,
    ensures
        given(p) == ranked(p.bad, Order::BadCaptures),
    decreases p.bad.len(),
{
    if p.bad.len() > 0 {
        lemma_first_best_exists(p.bad, Order::BadCaptures, p.bad.len() as int);
        lemma_given_bad(pick(p).0);
    }
}

/// The best of the first moves is the best of a list of them alone.
proof fn lemma_best_of_first(moves: Seq<EngineMove>, order: Order, n: int)
    requires
        0 < n <= moves.len(),
    ensures
        first_best(moves.take(n), order, n) == first_best(moves, order, n),
        0 <= first_best(moves, order, n) < n,
{
    lemma_first_best_exists(moves, order, n);
    let b = first_best(moves, order, n);
    let part = moves.take(n);
    assert forall|i: int| 0 <= i < n implies rating(order, #[trigger] part[i]) <= rating(
        order,
        part[b],
    ) by {
        assert(part[i] == moves[i]);
    }
    assert forall|i: int| 0 <= i < b implies rating(order, #[trigger] part[i]) < rating(
        order,
        part[b],
    ) by {
        assert(part[i] == moves[i]);
    }
    lemma_first_best(part, order, n, b);
}

proof fn lemma_given_quiets(p: Picker)
    requires
        p.wf(),
        p.stage == Stage::Quiets,
    ensures
        given(p) == ranked(p.quiets.take(p.remaining), Order::Quiets) + ranked(
            p.bad,
            Order::BadCaptures,
        ),
    decreases p.remaining,
{
    let n = p.remaining;
    if n == 0 {
        let next = Picker { stage: Stage::BadCaptures, ..p };
        assert(pick(p) == pick(next));
        lemma_given_bad(next);
        assert(given(p) == given(next));
        assert(ranked(p.quiets.take(0), Order::Quiets) + given(next) =~= given(next));
    } else {
        let part = p.quiets.take(n);
        lemma_best_of_first(p.quiets, Order::Quiets, n);
        let b = first_best(p.quiets, Order::Quiets, n);
        let next = pick(p).0;
        lemma_given_quiets(next);
        assert(swap_removed(part, b) =~= next.quiets.take(n - 1));
        assert(given(p) =~= ranked(part, Order::Quiets) + ranked(p.bad, Order::BadCaptures));
    }
}

proof fn lemma_given_good(p: Picker)
    requires
        p.wf(),
        p.stage == Stage::GoodCaptures,
    ensures
        given(p) == ranked(p.good, Order::Captures) + ranked(
            p.quiets.take(p.remaining),
            Order::Quiets,
        ) + ranked(p.bad, Order::BadCaptures),
    decreases p.good.len(),
{
    let later = ranked(p.quiets.take(p.remaining), Order::Quiets);
    let last = ranked(p.bad, Order::BadCaptures);
    if p.good.len() == 0 {
        let next = Picker { stage: Stage::Quiets, ..p };
        assert(pick(p) == pick(next));
        lemma_given_quiets(next);
        assert(given(p) == given(next));
        assert(ranked(p.good, Order::Captures) + later + last =~= later + last);
    } else {
        lemma_first_best_exists(p.good, Order::Captures, p.good.len() as int);
        lemma_given_good(pick(p).0);
        assert(given(p) =~= ranked(p.good, Order::Captures) + later + last);
    }
}

proof fn lemma_given_moves(p: Picker)
    requires
        p.wf(),
    ensures
        given(p).to_multiset() == available(p),
        used_up(p).wf(),
        pick(used_up(p)) == (used_up(p), None::<EngineMove>),
    decreases p.left(),
{
    broadcast use vstd::multiset::group_multiset_axioms;
    broadcast use vstd::multiset::group_multiset_properties;

    lemma_picked(p);
    picked_move_was_available(p);
    match pick(p).1 {
        Some(mv) => {
            let next = pick(p).0;
            lemma_given_moves(next);
            lemma_multiset_commutative(seq![mv], given(next));
            assert(seq![mv].to_multiset() =~= Multiset::<EngineMove>::empty().insert(mv)) by {
                assert(seq![mv] =~= Seq::<EngineMove>::empty().push(mv));
                lemma_no_moves(Seq::<EngineMove>::empty());
                to_multiset_build(Seq::<EngineMove>::empty(), mv);
            }
            assert(given(p).to_multiset() =~= available(p));
        },
        None => {
            lemma_no_moves(given(p));
        },
    }
}

/// A picker gives each move of a list once: the one from the table, then the
/// good captures, the quiet moves and the bad captures, each group by falling
/// ratings; and then it gives none, however often it is asked.
pub proof fn moves_come_by_their_promise(moves: Moves)
    ensures
        ({
            let g = given(picker_of(moves));
            let lead = if tt_place(moves.good, 0) is Some {
                1int
            } else {
                0int
            };
            let quiet = moves.good.len() as int;
            let bad = quiet + moves.quiets.len();
            &&& g.len() == moves.all().len()
            &&& g.to_multiset() == moves.all().to_multiset()
            &&& g.take(quiet).to_multiset() == moves.good.to_multiset()
            &&& g.subrange(quiet, bad).to_multiset() == moves.quiets.to_multiset()
            &&& g.skip(bad).to_multiset() == moves.bad.to_multiset()
            &&& lead == 1 ==> g[0].is_tt
            &&& falling(g.subrange(lead, quiet), Order::Captures)
            &&& falling(g.subrange(quiet, bad), Order::Quiets)
            &&& falling(g.skip(bad), Order::BadCaptures)
        }),
        pick(used_up(picker_of(moves))) == (used_up(picker_of(moves)), None::<EngineMove>),
{
    broadcast use vstd::multiset::group_multiset_axioms;
    broadcast use vstd::multiset::group_multiset_properties;

    let p = picker_of(moves);
    let g = given(p);
    let quiet = moves.good.len() as int;
    let bad = quiet + moves.quiets.len();
    lemma_tt_place(moves.good, 0);
    new_picker_has_every_move(moves);
    lemma_given_moves(p);
    assert(moves.quiets.take(moves.quiets.len() as int) =~= moves.quiets);
    ranked_moves_fall(p.good, Order::Captures);
    ranked_moves_fall(moves.quiets, Order::Quiets);
    ranked_moves_fall(moves.bad, Order::BadCaptures);
    let a = ranked(p.good, Order::Captures);
    let b = ranked(moves.quiets, Order::Quiets);
    let c = ranked(moves.bad, Order::BadCaptures);
    match tt_place(moves.good, 0) {
        Some(i) => {
            let mv = moves.good[i];
            let next = pick(p).0;
            lemma_given_good(next);
            assert(g =~= seq![mv] + a + b + c);
            assert(g.take(quiet) =~= seq![mv] + a);
            assert(g.subrange(1, quiet) =~= a);
            lemma_swap_removed(moves.good, i);
            lemma_multiset_commutative(seq![mv], a);
            assert(seq![mv].to_multiset() =~= Multiset::<EngineMove>::empty().insert(mv)) by {
                assert(seq![mv] =~= Seq::<EngineMove>::empty().push(mv));
                lemma_no_moves(Seq::<EngineMove>::empty());
                to_multiset_build(Seq::<EngineMove>::empty(), mv);
            }
            assert(g.take(quiet).to_multiset() =~= moves.good.to_multiset());
        },
        None => {
            lemma_given_good(p);
            assert(g =~= a + b + c);
            assert(g.take(quiet) =~= a);
            assert(g.subrange(0, quiet) =~= a);
        },
    }
    assert(g.subrange(quiet, bad) =~= b);
    assert(g.skip(bad) =~= c);
}

} // verus!
