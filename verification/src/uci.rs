//! The text protocol: what its commands say, and what is answered.

use crate::chess::{Move, Position};
use crate::limits::{SearchInfo, SearchLimits, SearchResult};
use crate::rules::{
    fen_position, legal_moves_of, played, read_uci_move, uci_move, uci_text, write_uci_move, START_FEN,
};
use crate::text::{
    decimal, eq_ignore_ascii_case, join, joined, parse_i32, parse_unsigned, push_decimal,
    push_signed, same_but_for_case, same_text, signed, signed_decimal, split_whitespace, texts,
    unsigned, words,
};
use vstd::prelude::*;
use vstd::string::StringExecFns;

verus! {

/// The place of the first word that is a given one, from a place on.
pub open spec fn word_place(parts: Seq<Seq<char>>, word: Seq<char>, from: int) -> Option<int>
    decreases parts.len() - from,
{
    if from < 0 || from >= parts.len() {
        None
    } else if parts[from] == word {
        Some(from)
    } else {
        word_place(parts, word, from + 1)
    }
}

fn find_word(parts: &Vec<String>, word: &str) -> (r: Option<usize>)
    ensures
        match r {
            Some(i) => word_place(texts(parts@), word@, 0) == Some(i as int) && i < parts@.len(),
            None => word_place(texts(parts@), word@, 0) is None,
        },
{
    let ghost all = texts(parts@);
    let mut i: usize = 0;
    while i < parts.len()
        invariant
            i <= parts@.len(),
            all == texts(parts@),
            word_place(all, word@, 0) == word_place(all, word@, i as int),
        decreases parts@.len() - i,
    {
        if same_text(parts[i].as_str(), word) {
            return Some(i);
        }
        i = i + 1;
    }
    None
}

/// A position and the keys of the game up to it, after some moves that are
/// given as text; nothing where one of them is no legal move.
pub open spec fn after_moves(board: Position, keys: Seq<u64>, moves: Seq<Seq<char>>) -> Option<
    (Position, Seq<u64>),
>
    decreases moves.len(),
{
    if moves.len() == 0 {
        Some((board, keys))
    } else {
        match uci_move(board, moves[0]) {
            Some(mv) if legal_moves_of(board).contains(mv) => {
                let next = played(board, mv);
                after_moves(next, keys.push(next.hash), moves.drop_first())
            },
            _ => None,
        }
    }
}

/// The position from which a `position` command starts.
pub open spec fn start_of(parts: Seq<Seq<char>>) -> Option<Position> {
    if parts.len() < 2 {
        None
    } else if parts[1] == "startpos"@ {
        fen_position(START_FEN@, false)
    } else if parts[1] == "fen"@ {
        let end = match word_place(parts, "moves"@, 0) {
            Some(i) => i,
            None => parts.len() as int,
        };
        fen_position(
            joined(
                if end >= 2 {
                    parts.subrange(2, end)
                } else {
                    Seq::empty()
                },
            ),
            false,
        )
    } else {
        None
    }
}

/// What a `position` command sets up, if it is valid as a whole.
pub open spec fn position_of(line: Seq<char>) -> Option<(Position, Seq<u64>)> {
    let parts = words(line);
    match start_of(parts) {
        Some(board) => after_moves(
            board,
            seq![board.hash],
            match word_place(parts, "moves"@, 0) {
                Some(i) => parts.skip(i + 1),
                None => Seq::empty(),
            },
        ),
        None => None,
    }
}

/// Sets up the position of a `position` command. A command that is not valid
/// as a whole changes nothing.
pub fn parse_position(line: &str, board: &mut Position, history: &mut Vec<u64>)
    requires
        old(board).valid(),
    ensures
        final(board).valid(),
        match position_of(line@) {
            Some((next, keys)) => *final(board) == next && final(history)@ == keys,
            None => *final(board) == *old(board) && final(history)@ == old(history)@,
        },
{
    let parts: Vec<String> = split_whitespace(line);
    let ghost all = texts(parts@);
    if parts.len() < 2 {
        return ;
    }
    let moves_start: Option<usize> = find_word(&parts, "moves");
    let mut next: Position = if same_text(parts[1].as_str(), "startpos") {
        Position::startpos()
    } else if same_text(parts[1].as_str(), "fen") {
        let end: usize = match moves_start {
            Some(i) => i,
            None => parts.len(),
        };
        let fen: String = if end >= 2 {
            join(&parts, 2, end)
        } else {
            String::new()
        };
        match Position::from_fen(fen.as_str(), false) {
            Some(next) => next,
            None => {
                return ;
            },
        }
    } else {
        return ;
    };
    let mut keys: Vec<u64> = vec![next.hash];
    assert(keys@ =~= seq![next.hash]);
    if let Some(start) = moves_start {
        let mut i: usize = start + 1;
        assert(all.skip(start + 1) =~= all.skip(i as int));
        while i < parts.len()
            invariant
                start < i <= parts@.len(),
                all == texts(parts@),
                next.valid(),
                all == words(line@),
                board.valid(),
                *board == *old(board),
                history@ == old(history)@,
                position_of(line@) == after_moves(next, keys@, all.skip(i as int)),
            decreases parts@.len() - i,
        {
            let ghost rest = all.skip(i as int);
            assert(rest[0] == parts@[i as int]@);
            assert(rest.drop_first() =~= all.skip(i + 1));
            let mv: Move = match parse_uci_move(&next, parts[i].as_str()) {
                Some(mv) => mv,
                None => {
                    return ;
                },
            };
            next = match next.try_play(mv) {
                Some(next) => next,
                None => {
                    return ;
                },
            };
            keys.push(next.hash);
            i = i + 1;
        }
        assert(all.skip(i as int) =~= Seq::<Seq<char>>::empty());
    }
    *board = next;
    *history = keys;
}

/// The limits of a search as a value.
#[verifier::ext_equal]
pub struct Limits {
    pub depth: Option<i32>,
    pub nodes: Option<u64>,
    pub movetime: Option<u64>,
    pub wtime: Option<u64>,
    pub btime: Option<u64>,
    pub winc: Option<u64>,
    pub binc: Option<u64>,
    pub movestogo: Option<u64>,
    pub infinite: bool,
    pub searchmoves: Seq<Move>,
}

impl View for SearchLimits {
    type V = Limits;

    open spec fn view(&self) -> Limits {
        Limits {
            depth: self.depth,
            nodes: self.nodes,
            movetime: self.movetime,
            wtime: self.wtime,
            btime: self.btime,
            winc: self.winc,
            binc: self.binc,
            movestogo: self.movestogo,
            infinite: self.infinite,
            searchmoves: self.searchmoves@,
        }
    }
}

/// No limits.
pub open spec fn no_limits() -> Limits {
    Limits {
        depth: None,
        nodes: None,
        movetime: None,
        wtime: None,
        btime: None,
        winc: None,
        binc: None,
        movestogo: None,
        infinite: false,
        searchmoves: Seq::empty(),
    }
}

/// The number that the word at a place writes, if there is one.
pub open spec fn count_at(parts: Seq<Seq<char>>, i: int) -> Option<u64> {
    if 0 <= i < parts.len() {
        match unsigned(parts[i], u64::MAX as int) {
            Some(n) => Some(n as u64),
            None => None,
        }
    } else {
        None
    }
}

/// The number with a sign that the word at a place writes, if there is one.
pub open spec fn depth_at(parts: Seq<Seq<char>>, i: int) -> Option<i32> {
    if 0 <= i < parts.len() {
        match signed(parts[i]) {
            Some(n) => Some(n as i32),
            None => None,
        }
    } else {
        None
    }
}

/// The moves that words write, those left out that write none.
pub open spec fn moves_of(board: Position, parts: Seq<Seq<char>>) -> Seq<Move>
    decreases parts.len(),
{
    if parts.len() == 0 {
        Seq::empty()
    } else {
        let before = moves_of(board, parts.drop_last());
        match uci_move(board, parts.last()) {
            Some(mv) => before.push(mv),
            None => before,
        }
    }
}

/// The place behind a name and its value.
pub open spec fn past(parts: Seq<Seq<char>>, i: int) -> int {
    if i + 2 <= parts.len() {
        i + 2
    } else {
        parts.len() as int
    }
}

/// The limits after the words of a `go` command from a place on. A name takes
/// the word behind it, whatever that is.
pub open spec fn limits_from(parts: Seq<Seq<char>>, i: int, board: Position, l: Limits) -> Limits
    decreases parts.len() - i,
{
    if i < 0 || i >= parts.len() {
        l
    } else if parts[i] == "depth"@ {
        limits_from(parts, past(parts, i), board, Limits { depth: depth_at(parts, i + 1), ..l })
    } else if parts[i] == "nodes"@ {
        limits_from(parts, past(parts, i), board, Limits { nodes: count_at(parts, i + 1), ..l })
    } else if parts[i] == "movetime"@ {
        limits_from(parts, past(parts, i), board, Limits { movetime: count_at(parts, i + 1), ..l })
    } else if parts[i] == "wtime"@ {
        limits_from(parts, past(parts, i), board, Limits { wtime: count_at(parts, i + 1), ..l })
    } else if parts[i] == "btime"@ {
        limits_from(parts, past(parts, i), board, Limits { btime: count_at(parts, i + 1), ..l })
    } else if parts[i] == "winc"@ {
        limits_from(parts, past(parts, i), board, Limits { winc: count_at(parts, i + 1), ..l })
    } else if parts[i] == "binc"@ {
        limits_from(parts, past(parts, i), board, Limits { binc: count_at(parts, i + 1), ..l })
    } else if parts[i] == "movestogo"@ {
        limits_from(parts, past(parts, i), board, Limits { movestogo: count_at(parts, i + 1), ..l })
    } else if parts[i] == "infinite"@ {
        limits_from(parts, i + 1, board, Limits { infinite: true, ..l })
    } else if parts[i] == "searchmoves"@ {
        Limits { searchmoves: l.searchmoves + moves_of(board, parts.skip(i + 1)), ..l }
    } else {
        limits_from(parts, i + 1, board, l)
    }
}

fn parse_count(parts: &Vec<String>, i: usize) -> (r: Option<u64>)
    ensures
        r == count_at(texts(parts@), i as int),
{
    if i < parts.len() {
        parse_unsigned(parts[i].as_str(), u64::MAX)
    } else {
        None
    }
}

fn parse_depth(parts: &Vec<String>, i: usize) -> (r: Option<i32>)
    ensures
        r == depth_at(texts(parts@), i as int),
{
    if i < parts.len() {
        parse_i32(parts[i].as_str())
    } else {
        None
    }
}

/// The place behind a name and its value.
fn past_value(parts: &Vec<String>, i: usize) -> (r: usize)
    requires
        i < parts@.len(),
    ensures
        i < r <= parts@.len(),
        r == past(texts(parts@), i as int),
{
    if parts.len() - i > 1 {
        i + 2
    } else {
        i + 1
    }
}

/// Reads the limits of a `go` command.
pub fn parse_go(line: &str, board: &Position) -> (r: SearchLimits)
    requires
        board.valid(),
    ensures
        r@ == limits_from(words(line@), 1, *board, no_limits()),
        forall|i: int|
            0 <= i < r.searchmoves@.len() ==> (#[trigger] r.searchmoves@[i]).from < 64
                && r.searchmoves@[i].to < 64,
{
    let parts: Vec<String> = split_whitespace(line);
    let ghost all = texts(parts@);
    let mut limits: SearchLimits = SearchLimits::default();
    assert(limits@ =~= no_limits());
    let ghost goal = limits_from(all, 1, *board, no_limits());
    let mut i: usize = 1;
    while i < parts.len()
        invariant
            1 <= i,
            all == texts(parts@),
            all == words(line@),
            board.valid(),
            goal == limits_from(all, 1, *board, no_limits()),
            goal == limits_from(all, i as int, *board, limits@),
            limits.searchmoves@.len() == 0,
        decreases parts@.len() - i,
    {
        let part: &str = parts[i].as_str();
        assert(all[i as int] == part@);
        if same_text(part, "depth") {
            limits.depth = parse_depth(&parts, i + 1);
            i = past_value(&parts, i);
        } else if same_text(part, "nodes") {
            limits.nodes = parse_count(&parts, i + 1);
            i = past_value(&parts, i);
        } else if same_text(part, "movetime") {
            limits.movetime = parse_count(&parts, i + 1);
            i = past_value(&parts, i);
        } else if same_text(part, "wtime") {
            limits.wtime = parse_count(&parts, i + 1);
            i = past_value(&parts, i);
        } else if same_text(part, "btime") {
            limits.btime = parse_count(&parts, i + 1);
            i = past_value(&parts, i);
        } else if same_text(part, "winc") {
            limits.winc = parse_count(&parts, i + 1);
            i = past_value(&parts, i);
        } else if same_text(part, "binc") {
            limits.binc = parse_count(&parts, i + 1);
            i = past_value(&parts, i);
        } else if same_text(part, "movestogo") {
            limits.movestogo = parse_count(&parts, i + 1);
            i = past_value(&parts, i);
        } else if same_text(part, "infinite") {
            limits.infinite = true;
            i = i + 1;
        } else if same_text(part, "searchmoves") {
            let ghost before = limits@;
            let ghost rest = all.skip(i + 1);
            let mut j: usize = i + 1;
            assert(rest.take(0) =~= Seq::<Seq<char>>::empty());
            while j < parts.len()
                invariant
                    i < j <= parts@.len(),
                    all == texts(parts@),
                    rest == all.skip(i + 1),
                    board.valid(),
                    limits@ == (Limits {
                        searchmoves: moves_of(*board, rest.take(j - i - 1)),
                        ..before
                    }),
                    forall|k: int|
                        0 <= k < limits.searchmoves@.len() ==> (
                        #[trigger] limits.searchmoves@[k]).from < 64
                            && limits.searchmoves@[k].to < 64,
                decreases parts@.len() - j,
            {
                proof {
                    let now = rest.take(j - i);
                    assert(now.drop_last() =~= rest.take(j - i - 1));
                    assert(now.last() == parts@[j as int]@);
                }
                if let Some(mv) = parse_uci_move(board, parts[j].as_str()) {
                    limits.searchmoves.push(mv);
                }
                j = j + 1;
            }
            proof {
                assert(rest.take(j - i - 1) =~= rest);
                assert(before.searchmoves + moves_of(*board, rest) =~= moves_of(*board, rest));
                assert(limits@ =~= goal);
            }
            return limits;
        } else {
            i = i + 1;
        }
    }
    limits
}

/// The size of the table that a `setoption` command asks for.
pub open spec fn hash_option_of(line: Seq<char>) -> Option<u64> {
    let parts = words(line);
    match (word_place(parts, "name"@, 0), word_place(parts, "value"@, 0)) {
        (Some(name), Some(value)) => if name + 1 <= value && same_but_for_case(
            joined(parts.subrange(name + 1, value)),
            "hash"@,
        ) {
            match count_at(parts, value + 1) {
                Some(n) => Some(
                    if n < 1 {
                        1
                    } else if n > 65_536 {
                        65_536
                    } else {
                        n
                    },
                ),
                None => None,
            }
        } else {
            None
        },
        _ => None,
    }
}

/// Reads the size of the table, in megabytes, from a `setoption` command.
pub fn parse_hash_option(line: &str) -> (r: Option<u64>)
    ensures
        r == hash_option_of(line@),
{
    let parts: Vec<String> = split_whitespace(line);
    let name: usize = match find_word(&parts, "name") {
        Some(i) => i + 1,
        None => {
            return None;
        },
    };
    let value: usize = match find_word(&parts, "value") {
        Some(i) => i,
        None => {
            return None;
        },
    };
    if name > value {
        return None;
    }
    if !eq_ignore_ascii_case(join(&parts, name, value).as_str(), "hash") {
        return None;
    }
    match parse_count(&parts, value + 1) {
        Some(n) => Some(
            if n < 1 {
                1
            } else if n > 65_536 {
                65_536
            } else {
                n
            },
        ),
        None => None,
    }
}

/// The move that a text writes. It need not be legal.
pub fn parse_uci_move(board: &Position, text: &str) -> (r: Option<Move>)
    requires
        board.valid(),
    ensures
        r == uci_move(*board, text@),
        r matches Some(mv) ==> mv.from < 64 && mv.to < 64,
{
    read_uci_move(board, text)
}

/// The text of a move.
pub fn format_uci_move(board: &Position, chess_move: Move) -> (r: String)
    requires
        board.valid(),
        chess_move.from < 64,
        chess_move.to < 64,
    ensures
        r@ == uci_text(*board, chess_move),
{
    write_uci_move(board, chess_move)
}

/// How many nodes a second so many nodes in so many milliseconds are.
pub open spec fn nodes_per_second(nodes: int, elapsed: int) -> int {
    if elapsed == 0 {
        0
    } else if nodes * 1000 < u64::MAX {
        nodes * 1000 / elapsed
    } else {
        u64::MAX as int / elapsed
    }
}

/// The line that reports a depth.
pub open spec fn info_text(board: Position, info: SearchInfo) -> Seq<char> {
    let pv = info.pv@.map_values(|mv: Move| uci_text(board, mv));
    "info depth "@ + signed_decimal(info.depth as int) + " score cp "@ + signed_decimal(
        info.score as int,
    ) + " nodes "@ + decimal(info.nodes as nat) + " time "@ + decimal(info.elapsed as nat)
        + " nps "@ + decimal(nodes_per_second(info.nodes as int, info.elapsed as int) as nat)
        + " pv "@ + joined(pv)
}

fn pv_text(board: &Position, pv: &Vec<Move>) -> (r: String)
    requires
        board.valid(),
        forall|i: int| 0 <= i < pv@.len() ==> (#[trigger] pv@[i]).from < 64 && pv@[i].to < 64,
    ensures
        r@ == joined(pv@.map_values(|mv: Move| uci_text(*board, mv))),
{
    let mut moves: Vec<String> = Vec::new();
    let mut i: usize = 0;
    while i < pv.len()
        invariant
            i <= pv@.len(),
            moves@.len() == i,
            board.valid(),
            forall|k: int| 0 <= k < pv@.len() ==> (#[trigger] pv@[k]).from < 64 && pv@[k].to < 64,
            forall|k: int| 0 <= k < i ==> (#[trigger] moves@[k])@ == uci_text(*board, pv@[k]),
        decreases pv@.len() - i,
    {
        moves.push(format_uci_move(board, pv[i]));
        i = i + 1;
    }
    assert(texts(moves@).subrange(0, moves@.len() as int) =~= pv@.map_values(
        |mv: Move| uci_text(*board, mv),
    ));
    join(&moves, 0, moves.len())
}

/// The line that reports a depth.
pub fn format_info(board: &Position, info: &SearchInfo) -> (r: String)
    requires
        board.valid(),
        forall|i: int|
            0 <= i < info.pv@.len() ==> (#[trigger] info.pv@[i]).from < 64 && info.pv@[i].to < 64,
    ensures
        r@ == info_text(*board, *info),
{
    let product: u128 = info.nodes as u128 * 1000;
    let capped: u64 = if product < u64::MAX as u128 {
        product as u64
    } else {
        u64::MAX
    };
    let nps: u64 = if info.elapsed == 0 {
        0
    } else {
        capped / info.elapsed
    };
    let mut out: String = "info depth ".to_owned();
    push_signed(&mut out, info.depth as i64);
    out.append(" score cp ");
    push_signed(&mut out, info.score as i64);
    out.append(" nodes ");
    push_decimal(&mut out, info.nodes);
    out.append(" time ");
    push_decimal(&mut out, info.elapsed);
    out.append(" nps ");
    push_decimal(&mut out, nps);
    out.append(" pv ");
    out.append(pv_text(board, &info.pv).as_str());
    out
}

/// The line that ends a search.
pub open spec fn best_move_text(board: Position, best_move: Option<Move>) -> Seq<char> {
    "bestmove "@ + match best_move {
        Some(mv) => uci_text(board, mv),
        None => "0000"@,
    }
}

/// The line that ends a search.
pub fn format_best_move(board: &Position, result: &SearchResult) -> (r: String)
    requires
        board.valid(),
        result.best_move matches Some(mv) ==> mv.from < 64 && mv.to < 64,
    ensures
        r@ == best_move_text(*board, result.best_move),
{
    let mut out: String = "bestmove ".to_owned();
    match result.best_move {
        Some(mv) => {
            out.append(format_uci_move(board, mv).as_str());
        },
        None => {
            out.append("0000");
        },
    }
    out
}

} // verus!
