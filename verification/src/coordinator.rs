//! The conversation with a user interface: what each line and each message of
//! the search worker makes the program do.

use crate::chess::{Move, Position};
use crate::limits::{SearchInfo, SearchLimits, SearchResult};
use crate::text::{same_text, split_whitespace, texts, words};
use crate::uci::{
    best_move_text, format_best_move, format_info, hash_option_of, info_text, limits_from,
    no_limits, parse_go, parse_hash_option, parse_position, position_of, Limits,
};
use vstd::prelude::*;

verus! {

/// What the program is to do next.
pub enum Action {
    /// Write a line.
    Print(String),
    /// Set the stop flag of a search.
    Stop(u64),
    /// Hand a search to the worker.
    Go { id: u64, board: Position, history: Vec<u64>, limits: SearchLimits },
    /// Have the worker change the size of its table.
    SetHash(u64),
    /// Have the worker forget the game.
    NewGame,
    /// Have the worker end.
    Quit,
}

/// What the program is to do next, as a value.
pub enum Deed {
    Print(Seq<char>),
    Stop(u64),
    Go { id: u64, board: Position, history: Seq<u64>, limits: Limits },
    SetHash(u64),
    NewGame,
    Quit,
}

impl View for Action {
    type V = Deed;

    open spec fn view(&self) -> Deed {
        match *self {
            Action::Print(line) => Deed::Print(line@),
            Action::Stop(id) => Deed::Stop(id),
            Action::Go { id, board, history, limits } => Deed::Go {
                id,
                board,
                history: history@,
                limits: limits@,
            },
            Action::SetHash(megabytes) => Deed::SetHash(megabytes),
            Action::NewGame => Deed::NewGame,
            Action::Quit => Deed::Quit,
        }
    }
}

/// The deeds of a list of actions.
pub open spec fn deeds(actions: Seq<Action>) -> Seq<Deed> {
    actions.map_values(|action: Action| action@)
}

/// The state of the conversation: the position with the keys of the game, the
/// search that runs, the number of the next one, and whether it is over.
pub struct Coordinator {
    pub board: Position,
    pub history: Vec<u64>,
    pub active: Option<u64>,
    pub next_id: u64,
    pub quitting: bool,
}

/// The state of the conversation as a value.
#[verifier::ext_equal]
pub struct Conversation {
    pub board: Position,
    pub history: Seq<u64>,
    pub active: Option<u64>,
    pub next_id: u64,
    pub quitting: bool,
}

impl View for Coordinator {
    type V = Conversation;

    open spec fn view(&self) -> Conversation {
        Conversation {
            board: self.board,
            history: self.history@,
            active: self.active,
            next_id: self.next_id,
            quitting: self.quitting,
        }
    }
}

/// The search that runs is stopped, if there is one.
pub open spec fn stop_active(c: Conversation) -> Seq<Deed> {
    match c.active {
        Some(id) => seq![Deed::Stop(id)],
        None => Seq::empty(),
    }
}

/// The lines that introduce the program.
pub open spec fn introduction() -> Seq<Deed> {
    seq![
        Deed::Print("id name chessbot"@),
        Deed::Print("id author me"@),
        Deed::Print("option name Hash type spin default 16 min 1 max 65536"@),
        Deed::Print("uciok"@),
    ]
}

/// What a line makes of the conversation, and what is to be done.
pub open spec fn heard(c: Conversation, line: Seq<char>) -> (Conversation, Seq<Deed>) {
    let parts = words(line);
    let nothing = (c, Seq::<Deed>::empty());
    if parts.len() == 0 {
        nothing
    } else if parts[0] == "uci"@ {
        (c, introduction())
    } else if parts[0] == "isready"@ {
        (c, seq![Deed::Print("readyok"@)])
    } else if parts[0] == "position"@ {
        match position_of(line) {
            Some((board, history)) => (
                Conversation { board, history, ..c },
                Seq::<Deed>::empty(),
            ),
            None => nothing,
        }
    } else if parts[0] == "go"@ {
        (
            Conversation { active: Some(c.next_id), next_id: (c.next_id + 1) as u64, ..c },
            stop_active(c).push(
                Deed::Go {
                    id: c.next_id,
                    board: c.board,
                    history: c.history,
                    limits: limits_from(parts, 1, c.board, no_limits()),
                },
            ),
        )
    } else if parts[0] == "stop"@ {
        (c, stop_active(c))
    } else if parts[0] == "ucinewgame"@ {
        (
            Conversation { history: seq![c.board.hash], ..c },
            stop_active(c).push(Deed::NewGame),
        )
    } else if parts[0] == "quit"@ {
        (Conversation { quitting: true, ..c }, stop_active(c).push(Deed::Quit))
    } else if parts[0] == "setoption"@ {
        match hash_option_of(line) {
            Some(megabytes) => (c, stop_active(c).push(Deed::SetHash(megabytes))),
            None => nothing,
        }
    } else {
        nothing
    }
}

/// What the end of the input makes of the conversation.
pub open spec fn hung_up(c: Conversation) -> (Conversation, Seq<Deed>) {
    (Conversation { quitting: true, ..c }, stop_active(c).push(Deed::Quit))
}

/// The conversation after a search has ended.
pub open spec fn concluded_search(c: Conversation, id: u64) -> Conversation {
    Conversation {
        active: if c.active == Some(id) {
            None
        } else {
            c.active
        },
        ..c
    }
}

impl Coordinator {
    /// The conversation at its start.
    pub fn new() -> (r: Coordinator)
        ensures
            r.board.valid(),
            crate::rules::fen_position(crate::rules::START_FEN@, false) == Some(r.board),
            r.history@ == seq![r.board.hash],
            r.active is None,
            r.next_id == 0,
            !r.quitting,
    {
        let board: Position = Position::startpos();
        let history: Vec<u64> = vec![board.hash];
        assert(history@ =~= seq![board.hash]);
        Coordinator { board, history, active: None, next_id: 0, quitting: false }
    }

    fn stop_search(&self) -> (r: Vec<Action>)
        ensures
            deeds(r@) == stop_active(self@),
    {
        let mut actions: Vec<Action> = Vec::new();
        if let Some(id) = self.active {
            actions.push(Action::Stop(id));
        }
        assert(deeds(actions@) =~= stop_active(self@));
        actions
    }

    /// Takes a line of the user interface.
    pub fn hear(&mut self, line: &str) -> (r: Vec<Action>)
        requires
            old(self).board.valid(),
            old(self).next_id < u64::MAX,
        ensures
            final(self).board.valid(),
            (final(self)@, deeds(r@)) == heard(old(self)@, line@),
    {
        let parts: Vec<String> = split_whitespace(line);
        let ghost all = texts(parts@);
        let ghost goal = heard(self@, line@);
        let mut actions: Vec<Action> = Vec::new();
        assert(deeds(actions@) =~= Seq::<Deed>::empty());
        if parts.len() == 0 {
            return actions;
        }
        let command: &str = parts[0].as_str();
        assert(all[0] == command@);
        if same_text(command, "uci") {
            actions.push(Action::Print("id name chessbot".to_owned()));
            actions.push(Action::Print("id author me".to_owned()));
            actions.push(
                Action::Print("option name Hash type spin default 16 min 1 max 65536".to_owned()),
            );
            actions.push(Action::Print("uciok".to_owned()));
            assert(deeds(actions@) =~= introduction());
        } else if same_text(command, "isready") {
            actions.push(Action::Print("readyok".to_owned()));
            assert(deeds(actions@) =~= seq![Deed::Print("readyok"@)]);
        } else if same_text(command, "position") {
            parse_position(line, &mut self.board, &mut self.history);
            assert(self@ =~= goal.0);
        } else if same_text(command, "go") {
            let stops: Vec<Action> = self.stop_search();
            let limits: SearchLimits = parse_go(line, &self.board);
            let id: u64 = self.next_id;
            self.next_id = id + 1;
            self.active = Some(id);
            let ghost before = stops@;
            actions = stops;
            let search = Action::Go {
                id,
                board: self.board,
                history: self.history.clone(),
                limits,
            };
            let ghost deed = search@;
            actions.push(search);
            assert(deeds(actions@) =~= deeds(before).push(deed));
            assert(self@ =~= goal.0);
        } else if same_text(command, "stop") {
            actions = self.stop_search();
        } else if same_text(command, "ucinewgame") {
            let stops: Vec<Action> = self.stop_search();
            let ghost before = stops@;
            self.history = vec![self.board.hash];
            actions = stops;
            actions.push(Action::NewGame);
            assert(deeds(actions@) =~= deeds(before).push(Deed::NewGame));
            assert(self@ =~= goal.0);
        } else if same_text(command, "quit") {
            return self.hang_up();
        } else if same_text(command, "setoption") {
            if let Some(megabytes) = parse_hash_option(line) {
                let stops: Vec<Action> = self.stop_search();
                let ghost before = stops@;
                actions = stops;
                actions.push(Action::SetHash(megabytes));
                assert(deeds(actions@) =~= deeds(before).push(Deed::SetHash(megabytes)));
            }
        }
        actions
    }

    /// Takes the end of the input.
    pub fn hang_up(&mut self) -> (r: Vec<Action>)
        ensures
            (final(self)@, deeds(r@)) == hung_up(old(self)@),
    {
        let mut actions: Vec<Action> = self.stop_search();
        let ghost before = actions@;
        actions.push(Action::Quit);
        self.quitting = true;
        assert(deeds(actions@) =~= deeds(before).push(Deed::Quit));
        actions
    }

    /// Takes the report of a depth: only the search that runs is reported.
    pub fn report(&self, id: u64, board: &Position, info: &SearchInfo) -> (r: Option<String>)
        requires
            board.valid(),
            forall|i: int|
                0 <= i < info.pv@.len() ==> (#[trigger] info.pv@[i]).from < 64 && info.pv@[i].to
                    < 64,
        ensures
            r is Some <==> self.active == Some(id),
            r matches Some(line) ==> line@ == info_text(*board, *info),
    {
        if self.active != Some(id) {
            return None;
        }
        Some(format_info(board, info))
    }

    /// Takes the end of a search: every search that was started ends with its
    /// best move.
    pub fn conclude(&mut self, id: u64, board: &Position, result: &SearchResult) -> (r: String)
        requires
            board.valid(),
            result.best_move matches Some(mv) ==> mv.from < 64 && mv.to < 64,
        ensures
            final(self)@ == concluded_search(old(self)@, id),
            r@ == best_move_text(*board, result.best_move),
    {
        let line: String = format_best_move(board, result);
        if self.active == Some(id) {
            self.active = None;
        }
        line
    }
}

/// A new search gets a number that no search before it had, and the search
/// that runs is told to stop.
pub proof fn a_new_search_replaces_the_running_one(c: Conversation, line: Seq<char>, id: u64)
    requires
        words(line).len() > 0,
        words(line)[0] == "go"@,
        c.next_id < u64::MAX,
        id < c.next_id,
    ensures
        heard(c, line).0.active == Some(c.next_id),
        heard(c, line).0.active != Some(id),
        heard(c, line).0.next_id > c.next_id,
        c.active matches Some(running) ==> heard(c, line).1.contains(Deed::Stop(running)),
{
    reveal_strlit("uci");
    reveal_strlit("isready");
    reveal_strlit("position");
    reveal_strlit("go");
    let word = words(line)[0];
    assert(word.len() == 2);
    assert("uci"@.len() == 3 && "isready"@.len() == 7 && "position"@.len() == 8);
    if let Some(running) = c.active {
        let deeds = heard(c, line).1;
        assert(deeds[0] == Deed::Stop(running));
    }
}

/// No line but `position` changes the position.
pub proof fn only_position_changes_the_board(c: Conversation, line: Seq<char>)
    requires
        words(line).len() == 0 || words(line)[0] != "position"@,
    ensures
        heard(c, line).0.board == c.board,
{
}

/// The numbers of the searches that deeds start.
pub open spec fn starts(deeds: Seq<Deed>) -> Seq<u64>
    decreases deeds.len(),
{
    if deeds.len() == 0 {
        Seq::empty()
    } else {
        let before = starts(deeds.drop_last());
        match deeds.last() {
            Deed::Go { id, .. } => before.push(id),
            _ => before,
        }
    }
}

/// What lines make of a conversation, and what is to be done on the way.
pub open spec fn heard_all(c: Conversation, lines: Seq<Seq<char>>) -> (Conversation, Seq<Deed>)
    decreases lines.len(),
{
    if lines.len() == 0 {
        (c, Seq::empty())
    } else {
        let (before, done) = heard_all(c, lines.drop_last());
        let (after, more) = heard(before, lines.last());
        (after, done + more)
    }
}

/// Whether a line asks for a search.
pub open spec fn asks(line: Seq<char>) -> bool {
    words(line).len() > 0 && words(line)[0] == "go"@
}

/// How many of the lines ask for a search.
pub open spec fn count_asks(lines: Seq<Seq<char>>) -> nat
    decreases lines.len(),
{
    if lines.len() == 0 {
        0
    } else {
        count_asks(lines.drop_last()) + if asks(lines.last()) {
            1nat
        } else {
            0nat
        }
    }
}

/// Every line that asks for a search starts one, with a number of its own, and
/// no other line does.
pub proof fn each_go_starts_one_search(c: Conversation, lines: Seq<Seq<char>>)
    requires
        c.next_id + lines.len() <= u64::MAX,
    ensures
        ({
            let ids = starts(heard_all(c, lines).1);
            &&& ids.len() == count_asks(lines)
            &&& forall|i: int| 0 <= i < ids.len() ==> #[trigger] ids[i] == c.next_id + i
        }),
        heard_all(c, lines).0.next_id == c.next_id + count_asks(lines),
        count_asks(lines) <= lines.len(),
    decreases lines.len(),
{
    if lines.len() > 0 {
        let (before, done) = heard_all(c, lines.drop_last());
        each_go_starts_one_search(c, lines.drop_last());
        lemma_heard_starts(before, lines.last());
        lemma_starts_joined(done, heard(before, lines.last()).1);
    }
}

proof fn lemma_starts_joined(a: Seq<Deed>, b: Seq<Deed>)
    ensures
        starts(a + b) == starts(a) + starts(b),
    decreases b.len(),
{
    if b.len() == 0 {
        assert(a + b =~= a);
        assert(starts(a) + starts(b) =~= starts(a));
    } else {
        lemma_starts_joined(a, b.drop_last());
        assert((a + b).drop_last() =~= a + b.drop_last());
        assert(starts(a + b) =~= starts(a) + starts(b));
    }
}

proof fn lemma_heard_starts(c: Conversation, line: Seq<char>)
    requires
        c.next_id < u64::MAX,
    ensures
        starts(heard(c, line).1) == if asks(line) {
            seq![c.next_id]
        } else {
            Seq::empty()
        },
        heard(c, line).0.next_id == c.next_id + if asks(line) {
            1int
        } else {
            0int
        },
{
    reveal_strlit("uci");
    reveal_strlit("isready");
    reveal_strlit("position");
    reveal_strlit("go");
    assert("uci"@.len() == 3 && "isready"@.len() == 7 && "position"@.len() == 8 && "go"@.len()
        == 2);
    reveal_with_fuel(starts, 5);
    let stops = stop_active(c);
    assert(starts(stops) =~= Seq::<u64>::empty());
    assert(forall|d: Deed| #[trigger] stops.push(d).drop_last() =~= stops);
    assert(introduction().drop_last() =~= introduction().take(3));
    assert(introduction().take(3).drop_last() =~= introduction().take(2));
    assert(introduction().take(2).drop_last() =~= introduction().take(1));
    assert(introduction().take(1).drop_last() =~= Seq::<Deed>::empty());
    assert(starts(introduction()) =~= Seq::<u64>::empty());
    let ready = seq![Deed::Print("readyok"@)];
    assert(ready.drop_last() =~= Seq::<Deed>::empty());
    assert(starts(ready) =~= Seq::<u64>::empty());
    if asks(line) {
        let deeds = heard(c, line).1;
        assert(deeds.drop_last() =~= stops);
        assert(starts(deeds) =~= seq![c.next_id]);
    }
}

/// What happens to a conversation: a line comes, the input ends, or a search
/// ends with its best move.
pub enum Event {
    Line(Seq<char>),
    HangUp,
    Ended { id: u64, board: Position, best_move: Option<Move> },
}

/// What an event makes of a conversation, and what is to be done.
pub open spec fn took(c: Conversation, event: Event) -> (Conversation, Seq<Deed>) {
    match event {
        Event::Line(line) => heard(c, line),
        Event::HangUp => hung_up(c),
        Event::Ended { id, board, best_move } => (
            concluded_search(c, id),
            seq![Deed::Print(best_move_text(board, best_move))],
        ),
    }
}

/// What events make of a conversation, and what is to be done on the way.
pub open spec fn took_all(c: Conversation, events: Seq<Event>) -> (Conversation, Seq<Deed>)
    decreases events.len(),
{
    if events.len() == 0 {
        (c, Seq::empty())
    } else {
        let (before, done) = took_all(c, events.drop_last());
        let (after, more) = took(before, events.last());
        (after, done + more)
    }
}

/// How many of the events are lines that ask for a search.
pub open spec fn searches_asked(events: Seq<Event>) -> nat
    decreases events.len(),
{
    if events.len() == 0 {
        0
    } else {
        searches_asked(events.drop_last()) + match events.last() {
            Event::Line(line) if asks(line) => 1nat,
            _ => 0nat,
        }
    }
}

/// The numbers of the searches that end.
pub open spec fn ends(events: Seq<Event>) -> Seq<u64>
    decreases events.len(),
{
    if events.len() == 0 {
        Seq::empty()
    } else {
        let before = ends(events.drop_last());
        match events.last() {
            Event::Ended { id, .. } => before.push(id),
            _ => before,
        }
    }
}

/// Whether something to be done is to write a best move.
pub open spec fn is_answer(deed: Deed) -> bool {
    deed matches Deed::Print(line) && "bestmove "@.is_prefix_of(line)
}

/// How many best moves are to be written.
pub open spec fn answers(deeds: Seq<Deed>) -> nat
    decreases deeds.len(),
{
    if deeds.len() == 0 {
        0
    } else {
        answers(deeds.drop_last()) + if is_answer(deeds.last()) {
            1nat
        } else {
            0nat
        }
    }
}

proof fn lemma_answers_joined(a: Seq<Deed>, b: Seq<Deed>)
    ensures
        answers(a + b) == answers(a) + answers(b),
    decreases b.len(),
{
    if b.len() == 0 {
        assert(a + b =~= a);
    } else {
        lemma_answers_joined(a, b.drop_last());
        assert((a + b).drop_last() =~= a + b.drop_last());
    }
}

proof fn lemma_no_answers(deeds: Seq<Deed>)
    requires
        forall|i: int| 0 <= i < deeds.len() ==> !is_answer(#[trigger] deeds[i]),
    ensures
        answers(deeds) == 0,
    decreases deeds.len(),
{
    if deeds.len() > 0 {
        assert(!is_answer(deeds[deeds.len() - 1]));
        assert forall|i: int| 0 <= i < deeds.len() - 1 implies !is_answer(
            #[trigger] deeds.drop_last()[i],
        ) by {
            assert(deeds.drop_last()[i] == deeds[i]);
        }
        lemma_no_answers(deeds.drop_last());
    }
}

/// A line is never answered with a best move at once.
proof fn lemma_lines_are_not_answered(c: Conversation, line: Seq<char>)
    ensures
        answers(heard(c, line).1) == 0,
        answers(hung_up(c).1) == 0,
{
    reveal_strlit("bestmove ");
    reveal_strlit("readyok");
    reveal_strlit("id name chessbot");
    reveal_strlit("id author me");
    reveal_strlit("option name Hash type spin default 16 min 1 max 65536");
    reveal_strlit("uciok");
    assert("bestmove "@[0] == 'b');
    assert(forall|text: Seq<char>| #[trigger] "bestmove "@.is_prefix_of(text) ==> text[0] == 'b');
    assert("readyok"@[0] == 'r' && "id name chessbot"@[0] == 'i' && "id author me"@[0] == 'i'
        && "option name Hash type spin default 16 min 1 max 65536"@[0] == 'o' && "uciok"@[0]
        == 'u');
    lemma_no_answers(heard(c, line).1);
    lemma_no_answers(hung_up(c).1);
}

proof fn lemma_answers(c: Conversation, events: Seq<Event>)
    requires
        c.next_id + events.len() <= u64::MAX,
    ensures
        answers(took_all(c, events).1) == ends(events).len(),
        starts(took_all(c, events).1).len() == searches_asked(events),
        took_all(c, events).0.next_id == c.next_id + searches_asked(events),
        searches_asked(events) <= events.len(),
        forall|i: int|
            0 <= i < starts(took_all(c, events).1).len() ==> #[trigger] starts(
                took_all(c, events).1,
            )[i] == c.next_id + i,
    decreases events.len(),
{
    if events.len() > 0 {
        let (before, done) = took_all(c, events.drop_last());
        let more = took(before, events.last()).1;
        lemma_answers(c, events.drop_last());
        lemma_answers_joined(done, more);
        lemma_starts_joined(done, more);
        match events.last() {
            Event::Line(line) => {
                lemma_heard_starts(before, line);
                lemma_lines_are_not_answered(before, line);
            },
            Event::HangUp => {
                lemma_lines_are_not_answered(before, Seq::empty());
                let stops = stop_active(before);
                reveal_with_fuel(starts, 3);
                assert(more.drop_last() =~= stops);
                assert(stops.len() == 1 ==> stops.drop_last() =~= Seq::<Deed>::empty());
                assert(starts(more) =~= Seq::<u64>::empty());
            },
            Event::Ended { id, board, best_move } => {
                let line = best_move_text(board, best_move);
                reveal_with_fuel(starts, 2);
                reveal_with_fuel(answers, 2);
                assert("bestmove "@.is_prefix_of(line));
                assert(more.drop_last() =~= Seq::<Deed>::empty());
                assert(starts(more) =~= Seq::<u64>::empty());
                assert(is_answer(more.last()));
            },
        }
    }
}

/// Each `go` is answered by exactly one `bestmove`: where every search that is
/// started ends once, as many best moves are written as searches were asked
/// for. That goes for searches that a later `go` or `quit` has stopped, too.
pub proof fn each_go_is_answered_once(c: Conversation, events: Seq<Event>)
    requires
        c.next_id + events.len() <= u64::MAX,
        ends(events).to_multiset() == starts(took_all(c, events).1).to_multiset(),
    ensures
        answers(took_all(c, events).1) == searches_asked(events),
{
    lemma_answers(c, events);
    ends(events).to_multiset_ensures();
    starts(took_all(c, events).1).to_multiset_ensures();
}

/// A search that ends is answered with its best move at once, whatever has
/// happened since it was started, and with nothing else.
pub proof fn an_ended_search_is_answered(
    c: Conversation,
    id: u64,
    board: Position,
    best_move: Option<Move>,
)
    ensures
        took(c, Event::Ended { id, board, best_move }).1 == seq![
            Deed::Print(best_move_text(board, best_move)),
        ],
        is_answer(Deed::Print(best_move_text(board, best_move))),
{
    assert("bestmove "@.is_prefix_of(best_move_text(board, best_move)));
}

/// A search that was handed to the worker.
pub struct Handed {
    pub id: u64,
    pub board: Position,
}

/// The searches that deeds hand to the worker.
pub open spec fn handed(deeds: Seq<Deed>) -> Seq<Handed>
    decreases deeds.len(),
{
    if deeds.len() == 0 {
        Seq::empty()
    } else {
        let before = handed(deeds.drop_last());
        match deeds.last() {
            Deed::Go { id, board, .. } => before.push(Handed { id, board }),
            _ => before,
        }
    }
}

/// The lines that deeds write.
pub open spec fn prints(deeds: Seq<Deed>) -> Seq<Seq<char>>
    decreases deeds.len(),
{
    if deeds.len() == 0 {
        Seq::empty()
    } else {
        let before = prints(deeds.drop_last());
        match deeds.last() {
            Deed::Print(line) => before.push(line),
            _ => before,
        }
    }
}

/// The lines of an output that give a best move.
pub open spec fn best_lines(output: Seq<Seq<char>>) -> Seq<Seq<char>>
    decreases output.len(),
{
    if output.len() == 0 {
        Seq::empty()
    } else {
        let before = best_lines(output.drop_last());
        if "bestmove "@.is_prefix_of(output.last()) {
            before.push(output.last())
        } else {
            before
        }
    }
}

/// A conversation together with its worker, which takes the searches in the
/// order in which it was handed them and ends each with a best move: what was
/// handed to it, what it has ended, and what was written.
#[verifier::ext_equal]
pub struct Session {
    pub talk: Conversation,
    pub asked: Seq<Handed>,
    pub answered: Seq<Option<Move>>,
    pub output: Seq<Seq<char>>,
}

/// What happens in a session: a line comes, the input ends, or the worker is
/// done with the search that is next.
pub enum Happening {
    Line(Seq<char>),
    HangUp,
    Done(Option<Move>),
}

/// A session at its start.
pub open spec fn new_session(talk: Conversation) -> Session {
    Session { talk, asked: Seq::empty(), answered: Seq::empty(), output: Seq::empty() }
}

/// A session after what was heard has made the program do something.
pub open spec fn acted(s: Session, heard: (Conversation, Seq<Deed>)) -> Session {
    Session {
        talk: heard.0,
        asked: s.asked + handed(heard.1),
        output: s.output + prints(heard.1),
        ..s
    }
}

/// A session after something has happened. A worker that has nothing to do is
/// done with nothing.
pub open spec fn went_on(s: Session, happening: Happening) -> Session {
    match happening {
        Happening::Line(line) => acted(s, heard(s.talk, line)),
        Happening::HangUp => acted(s, hung_up(s.talk)),
        Happening::Done(best_move) => if s.answered.len() < s.asked.len() {
            let next = s.asked[s.answered.len() as int];
            let event = Event::Ended { id: next.id, board: next.board, best_move };
            Session {
                answered: s.answered.push(best_move),
                ..acted(s, took(s.talk, event))
            }
        } else {
            s
        },
    }
}

/// A session after all that has happened.
pub open spec fn session_after(s: Session, all: Seq<Happening>) -> Session
    decreases all.len(),
{
    if all.len() == 0 {
        s
    } else {
        went_on(session_after(s, all.drop_last()), all.last())
    }
}

/// How many lines ask for a search.
pub open spec fn lines_that_ask(all: Seq<Happening>) -> nat
    decreases all.len(),
{
    if all.len() == 0 {
        0
    } else {
        lines_that_ask(all.drop_last()) + match all.last() {
            Happening::Line(line) if asks(line) => 1nat,
            _ => 0nat,
        }
    }
}

proof fn lemma_handed(c: Conversation, line: Seq<char>)
    requires
        c.next_id < u64::MAX,
    ensures
        handed(heard(c, line).1) == if asks(line) {
            seq![Handed { id: c.next_id, board: c.board }]
        } else {
            Seq::empty()
        },
        best_lines(prints(heard(c, line).1)).len() == 0,
        handed(hung_up(c).1).len() == 0,
        best_lines(prints(hung_up(c).1)).len() == 0,
{
    reveal_strlit("uci");
    reveal_strlit("isready");
    reveal_strlit("position");
    reveal_strlit("go");
    assert("uci"@.len() == 3 && "isready"@.len() == 7 && "position"@.len() == 8 && "go"@.len()
        == 2);
    let stops = stop_active(c);
    lemma_quiet(stops);
    assert(forall|d: Deed| #[trigger] stops.push(d).drop_last() =~= stops);
    lemma_lines_are_not_answered(c, line);
    lemma_best_lines(heard(c, line).1);
    lemma_best_lines(hung_up(c).1);
    lemma_quiet(introduction());
    lemma_quiet(seq![Deed::Print("readyok"@)]);
    if asks(line) {
        let deeds = heard(c, line).1;
        assert(deeds.drop_last() =~= stops);
        assert(handed(deeds) =~= seq![Handed { id: c.next_id, board: c.board }]);
    }
}

/// Deeds without a search hand none over.
proof fn lemma_quiet(deeds: Seq<Deed>)
    requires
        forall|i: int| 0 <= i < deeds.len() ==> !((#[trigger] deeds[i]) is Go),
    ensures
        handed(deeds) == Seq::<Handed>::empty(),
    decreases deeds.len(),
{
    if deeds.len() > 0 {
        assert(!(deeds[deeds.len() - 1] is Go));
        assert forall|i: int| 0 <= i < deeds.len() - 1 implies !((
        #[trigger] deeds.drop_last()[i]) is Go) by {
            assert(deeds.drop_last()[i] == deeds[i]);
        }
        lemma_quiet(deeds.drop_last());
    }
}

/// As many best moves are written as deeds write.
proof fn lemma_best_lines(deeds: Seq<Deed>)
    ensures
        best_lines(prints(deeds)).len() == answers(deeds),
    decreases deeds.len(),
{
    if deeds.len() > 0 {
        lemma_best_lines(deeds.drop_last());
        if let Deed::Print(line) = deeds.last() {
            assert(prints(deeds).drop_last() =~= prints(deeds.drop_last()));
        }
    }
}

proof fn lemma_best_lines_joined(a: Seq<Seq<char>>, b: Seq<Seq<char>>)
    ensures
        best_lines(a + b) == best_lines(a) + best_lines(b),
    decreases b.len(),
{
    if b.len() == 0 {
        assert(a + b =~= a);
        assert(best_lines(a) + best_lines(b) =~= best_lines(a));
    } else {
        lemma_best_lines_joined(a, b.drop_last());
        assert((a + b).drop_last() =~= a + b.drop_last());
        assert(best_lines(a + b) =~= best_lines(a) + best_lines(b));
    }
}

/// Each `go` gets exactly one `bestmove`, in the order in which they came: the
/// lines that give a best move are those of the first searches that were asked
/// for, one each, and of all of them once the worker has nothing left to do,
/// whatever else was said and however the searches were stopped.
pub proof fn best_moves_come_in_order(talk: Conversation, all: Seq<Happening>)
    requires
        talk.next_id + all.len() <= u64::MAX,
    ensures
        ({
            let s = session_after(new_session(talk), all);
            let best = best_lines(s.output);
            &&& s.asked.len() == lines_that_ask(all) <= all.len()
            &&& s.talk.next_id == talk.next_id + s.asked.len()
            &&& forall|i: int|
                0 <= i < s.asked.len() ==> (#[trigger] s.asked[i]).id == talk.next_id + i
            &&& best.len() == s.answered.len() <= s.asked.len()
            &&& forall|i: int|
                0 <= i < best.len() ==> #[trigger] best[i] == best_move_text(
                    s.asked[i].board,
                    s.answered[i],
                )
        }),
    decreases all.len(),
{
    let s = session_after(new_session(talk), all);
    if all.len() > 0 {
        let before = session_after(new_session(talk), all.drop_last());
        best_moves_come_in_order(talk, all.drop_last());
        match all.last() {
            Happening::Line(line) => {
                lemma_handed(before.talk, line);
                lemma_heard_starts(before.talk, line);
                lemma_best_lines_joined(before.output, prints(heard(before.talk, line).1));
                assert(best_lines(s.output) =~= best_lines(before.output));
            },
            Happening::HangUp => {
                lemma_handed(before.talk, Seq::empty());
                lemma_best_lines_joined(before.output, prints(hung_up(before.talk).1));
                assert(best_lines(s.output) =~= best_lines(before.output));
                assert(s.asked =~= before.asked);
            },
            Happening::Done(best_move) => {
                if before.answered.len() < before.asked.len() {
                    let next = before.asked[before.answered.len() as int];
                    let line = best_move_text(next.board, best_move);
                    let deeds = seq![Deed::Print(line)];
                    reveal_with_fuel(handed, 2);
                    reveal_with_fuel(prints, 2);
                    reveal_with_fuel(best_lines, 2);
                    assert("bestmove "@.is_prefix_of(line));
                    assert(deeds.drop_last() =~= Seq::<Deed>::empty());
                    assert(handed(deeds) =~= Seq::<Handed>::empty());
                    assert(prints(deeds) =~= seq![line]);
                    assert(prints(deeds).drop_last() =~= Seq::<Seq<char>>::empty());
                    assert(best_lines(prints(deeds)) =~= seq![line]);
                    lemma_best_lines_joined(before.output, prints(deeds));
                    assert(s.asked =~= before.asked);
                }
            },
        }
    }
}

} // verus!
