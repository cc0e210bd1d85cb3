//! What is read from and written to the other side of the engine.

use crate::chess::{Move, Position};
use crate::coordinator::{heard, stop_active, Conversation, Deed};
use crate::limits::SearchInfo;
use crate::rules::{fen_position, legal_moves_of, played, uci_move, START_FEN};
use crate::text::{
    same_but_for_case, decimal, digit_of, is_space, joined, number, signed, signed_decimal,
    unsigned, word_end, words, words_from, written_number_is_read, written_signed_number_is_read,
};
use crate::uci::{
    after_moves, best_move_text, hash_option_of, info_text, limits_from, moves_of, no_limits,
    nodes_per_second, position_of, word_place, Limits,
};
use vstd::prelude::*;

verus! {

/// Numbers are written in tens: what stands before the last digit is the number of
/// tens, and ten times a number is written as the number and a zero.
pub proof fn numbers_are_written_in_tens(n: nat, d: nat)
    requires
        d < 10,
        n > 0,
    ensures
        decimal(10 * n + d) == decimal(n) + decimal(d),
        decimal(d).len() == 1,
        decimal(d)[0] as int == '0' as int + d,
        signed_decimal(-(n as int)) == seq!['-'] + signed_decimal(n as int),
        signed_decimal(n as int) == decimal(n),
{
    assert((10 * n + d) / 10 == n);
    assert((10 * n + d) % 10 == d);
    assert(decimal(n).push(digit_of(d as int)) =~= decimal(n) + decimal(d));
}

/// Digits are read in tens: one more digit makes ten times as much and the digit.
pub proof fn digits_are_read_in_tens(s: Seq<char>, d: nat)
    requires
        d < 10,
    ensures
        number(s + decimal(d)) == 10 * number(s) + d,
{
    let c = digit_of(d as int);
    assert(s + decimal(d) =~= s.push(c));
    assert(s.push(c).drop_last() =~= s);
}

/// Whether a text is one word.
pub open spec fn is_word(s: Seq<char>) -> bool {
    s.len() > 0 && forall|i: int| 0 <= i < s.len() ==> !is_space(#[trigger] s[i])
}

proof fn lemma_word_end_within(a: Seq<char>, rest: Seq<char>, i: int)
    requires
        0 <= i <= a.len(),
        rest.len() > 0,
        is_space(rest[0]),
    ensures
        word_end(a + rest, i) == word_end(a, i),
        i <= word_end(a, i) <= a.len(),
    decreases a.len() - i,
{
    let s = a + rest;
    if i < a.len() {
        assert(s[i] == a[i]);
        if !is_space(a[i]) {
            lemma_word_end_within(a, rest, i + 1);
        }
    } else {
        assert(s[i] == rest[0]);
    }
}

proof fn lemma_words_within(a: Seq<char>, rest: Seq<char>, i: int)
    requires
        0 <= i <= a.len(),
        rest.len() > 0,
        is_space(rest[0]),
    ensures
        words_from(a + rest, i) == words_from(a, i) + words_from(a + rest, a.len() as int),
    decreases a.len() - i,
{
    let s = a + rest;
    if i == a.len() {
        assert(words_from(a, i) =~= Seq::<Seq<char>>::empty());
        assert(Seq::<Seq<char>>::empty() + words_from(s, i) =~= words_from(s, i));
    } else {
        assert(s[i] == a[i]);
        if is_space(a[i]) {
            lemma_words_within(a, rest, i + 1);
        } else {
            let end = word_end(a, i);
            lemma_word_end_within(a, rest, i);
            crate::text::lemma_word_end(a, i);
            lemma_words_within(a, rest, end);
            assert(s.subrange(i, end) =~= a.subrange(i, end));
            let first = seq![a.subrange(i, end)];
            assert(first + (words_from(a, end) + words_from(s, a.len() as int)) =~= (first
                + words_from(a, end)) + words_from(s, a.len() as int));
        }
    }
}

proof fn lemma_last_word(s: Seq<char>, i: int)
    requires
        0 <= i < s.len(),
        forall|k: int| i <= k < s.len() ==> !is_space(#[trigger] s[k]),
    ensures
        word_end(s, i) == s.len(),
    decreases s.len() - i,
{
    assert(!is_space(s[i]));
    if i + 1 < s.len() {
        lemma_last_word(s, i + 1);
    } else {
        assert(word_end(s, i + 1) == i + 1);
    }
}

/// Words that are joined by spaces are read back one by one.
pub proof fn joined_words_are_read_back(list: Seq<Seq<char>>)
    requires
        forall|i: int| 0 <= i < list.len() ==> is_word(#[trigger] list[i]),
    ensures
        words(joined(list)) == list,
    decreases list.len(),
{
    if list.len() == 0 {
        assert(words(joined(list)) =~= list);
    } else {
        let w = list.last();
        assert(is_word(list[list.len() - 1]));
        if list.len() == 1 {
            let s = joined(list);
            assert(s == w);
            lemma_last_word(s, 0);
            assert(s.subrange(0, s.len() as int) =~= s);
            assert(words_from(s, s.len() as int) =~= Seq::<Seq<char>>::empty());
            assert(words(s) =~= list);
        } else {
            let before = list.drop_last();
            assert forall|i: int| 0 <= i < before.len() implies is_word(#[trigger] before[i]) by {
                assert(before[i] == list[i]);
            }
            joined_words_are_read_back(before);
            let a = joined(before);
            let rest = seq![' '] + w;
            let s = joined(list);
            let n = a.len() as int;
            assert(s =~= a + rest);
            lemma_words_within(a, rest, 0);
            assert(s[n] == ' ');
            assert forall|k: int| n + 1 <= k < s.len() implies !is_space(#[trigger] s[k]) by {
                assert(s[k] == w[k - n - 1]);
            }
            lemma_last_word(s, n + 1);
            assert(words_from(s, n) == words_from(s, n + 1));
            assert(s.subrange(n + 1, s.len() as int) =~= w);
            assert(words_from(s, s.len() as int) =~= Seq::<Seq<char>>::empty());
            assert(words_from(s, n + 1) =~= seq![w]);
            assert(words(s) =~= list);
        }
    }
}

proof fn lemma_words_are_words(s: Seq<char>, from: int, i: int)
    requires
        0 <= from <= s.len(),
        0 <= i < words_from(s, from).len(),
    ensures
        is_word(words_from(s, from)[i]),
    decreases s.len() - from,
{
    if from < s.len() {
        if is_space(s[from]) {
            lemma_words_are_words(s, from + 1, i);
        } else {
            let end = word_end(s, from);
            crate::text::lemma_word_end(s, from);
            lemma_no_space(s, from);
            let first = s.subrange(from, end);
            let rest = words_from(s, end);
            assert(words_from(s, from) == seq![first] + rest);
            if i == 0 {
                assert(words_from(s, from)[0] == first);
                assert forall|k: int| 0 <= k < first.len() implies !is_space(#[trigger] first[k]) by {
                    assert(first[k] == s[from + k]);
                }
            } else {
                assert(words_from(s, from)[i] == rest[i - 1]);
                lemma_words_are_words(s, end, i - 1);
            }
        }
    }
}

proof fn lemma_no_space(s: Seq<char>, i: int)
    requires
        0 <= i <= s.len(),
    ensures
        i <= word_end(s, i) <= s.len(),
        forall|k: int| i <= k < word_end(s, i) ==> !is_space(#[trigger] s[k]),
        i < s.len() && !is_space(s[i]) ==> word_end(s, i) > i,
    decreases s.len() - i,
{
    if i < s.len() && !is_space(s[i]) {
        lemma_no_space(s, i + 1);
    }
}

/// What is read of a line has no spaces in it and is never empty.
pub proof fn words_hold_no_spaces(line: Seq<char>, i: int)
    requires
        0 <= i < words(line).len(),
    ensures
        is_word(words(line)[i]),
{
    lemma_words_are_words(line, 0, i);
}

/// The words that a search may be asked with.
proof fn reveal_go_words()
    ensures
        "depth"@ =~= seq!['d', 'e', 'p', 't', 'h'],
        "nodes"@ =~= seq!['n', 'o', 'd', 'e', 's'],
        "movetime"@ =~= seq!['m', 'o', 'v', 'e', 't', 'i', 'm', 'e'],
        "wtime"@ =~= seq!['w', 't', 'i', 'm', 'e'],
        "btime"@ =~= seq!['b', 't', 'i', 'm', 'e'],
        "winc"@ =~= seq!['w', 'i', 'n', 'c'],
        "binc"@ =~= seq!['b', 'i', 'n', 'c'],
        "movestogo"@ =~= seq!['m', 'o', 'v', 'e', 's', 't', 'o', 'g', 'o'],
        "infinite"@ =~= seq!['i', 'n', 'f', 'i', 'n', 'i', 't', 'e'],
        "searchmoves"@ =~= seq!['s', 'e', 'a', 'r', 'c', 'h', 'm', 'o', 'v', 'e', 's'],
{
    reveal_strlit("depth");
    reveal_strlit("nodes");
    reveal_strlit("movetime");
    reveal_strlit("wtime");
    reveal_strlit("btime");
    reveal_strlit("winc");
    reveal_strlit("binc");
    reveal_strlit("movestogo");
    reveal_strlit("infinite");
    reveal_strlit("searchmoves");
}

/// Each word of a search's limits sets its own limit to the number behind it, and
/// no other; `infinite` takes no number.
pub proof fn each_word_sets_its_own_limit(
    parts: Seq<Seq<char>>,
    i: int,
    board: Position,
    l: Limits,
    n: u64,
)
    requires
        0 <= i,
        i + 1 < parts.len(),
        parts[i + 1] == decimal(n as nat),
    ensures
        ({
            let word = parts[i];
            let all = limits_from(parts, i, board, l);
            &&& word == "nodes"@ ==> all == limits_from(
                parts,
                i + 2,
                board,
                Limits { nodes: Some(n), ..l },
            )
            &&& word == "movetime"@ ==> all == limits_from(
                parts,
                i + 2,
                board,
                Limits { movetime: Some(n), ..l },
            )
            &&& word == "wtime"@ ==> all == limits_from(
                parts,
                i + 2,
                board,
                Limits { wtime: Some(n), ..l },
            )
            &&& word == "btime"@ ==> all == limits_from(
                parts,
                i + 2,
                board,
                Limits { btime: Some(n), ..l },
            )
            &&& word == "winc"@ ==> all == limits_from(
                parts,
                i + 2,
                board,
                Limits { winc: Some(n), ..l },
            )
            &&& word == "binc"@ ==> all == limits_from(
                parts,
                i + 2,
                board,
                Limits { binc: Some(n), ..l },
            )
            &&& word == "movestogo"@ ==> all == limits_from(
                parts,
                i + 2,
                board,
                Limits { movestogo: Some(n), ..l },
            )
            &&& word == "depth"@ && n <= i32::MAX ==> all == limits_from(
                parts,
                i + 2,
                board,
                Limits { depth: Some(n as i32), ..l },
            )
            &&& word == "infinite"@ ==> all == limits_from(
                parts,
                i + 1,
                board,
                Limits { infinite: true, ..l },
            )
        }),
{
    reveal_go_words();
    written_number_is_read(n as nat, u64::MAX as int);
    if n <= i32::MAX {
        written_signed_number_is_read(n as i32);
    }
}

/// Both clocks with their increments are read as they are given, each for its own
/// side.
pub proof fn clocks_are_read_as_they_are_given(
    board: Position,
    white: u64,
    black: u64,
    white_more: u64,
    black_more: u64,
    moves: u64,
)
    ensures
        limits_from(
            seq![
                "go"@,
                "wtime"@,
                decimal(white as nat),
                "btime"@,
                decimal(black as nat),
                "winc"@,
                decimal(white_more as nat),
                "binc"@,
                decimal(black_more as nat),
                "movestogo"@,
                decimal(moves as nat),
            ],
            1,
            board,
            no_limits(),
        ) == (Limits {
            depth: None,
            nodes: None,
            movetime: None,
            wtime: Some(white),
            btime: Some(black),
            winc: Some(white_more),
            binc: Some(black_more),
            movestogo: Some(moves),
            infinite: false,
            searchmoves: Seq::empty(),
        }),
{
    let parts = seq![
        "go"@,
        "wtime"@,
        decimal(white as nat),
        "btime"@,
        decimal(black as nat),
        "winc"@,
        decimal(white_more as nat),
        "binc"@,
        decimal(black_more as nat),
        "movestogo"@,
        decimal(moves as nat),
    ];
    let l0 = no_limits();
    let l1 = Limits { wtime: Some(white), ..l0 };
    let l2 = Limits { btime: Some(black), ..l1 };
    let l3 = Limits { winc: Some(white_more), ..l2 };
    let l4 = Limits { binc: Some(black_more), ..l3 };
    let l5 = Limits { movestogo: Some(moves), ..l4 };
    each_word_sets_its_own_limit(parts, 1, board, l0, white);
    each_word_sets_its_own_limit(parts, 3, board, l1, black);
    each_word_sets_its_own_limit(parts, 5, board, l2, white_more);
    each_word_sets_its_own_limit(parts, 7, board, l3, black_more);
    each_word_sets_its_own_limit(parts, 9, board, l4, moves);
    assert(limits_from(parts, 11, board, l5) == l5);
}

/// The size of the table is taken as it is given, from one megabyte to 65536.
pub proof fn the_table_has_the_size_that_is_given(line: Seq<char>, name: Seq<char>, n: u64)
    requires
        words(line) == seq!["setoption"@, "name"@, name, "value"@, decimal(n as nat)],
        name != "name"@,
        name != "value"@,
        same_but_for_case(name, "hash"@),
    ensures
        1 <= n <= 65_536 ==> hash_option_of(line) == Some(n),
        n == 0 ==> hash_option_of(line) == Some(1u64),
        n > 65_536 ==> hash_option_of(line) == Some(65_536u64),
{
    let parts = words(line);
    reveal_strlit("setoption");
    reveal_strlit("name");
    reveal_strlit("value");
    written_number_is_read(n as nat, u64::MAX as int);
    assert("setoption"@.len() == 9 && "name"@.len() == 4 && "value"@.len() == 5);
    assert(parts[0] == "setoption"@ && parts[1] == "name"@ && parts[2] == name && parts[3]
        == "value"@);
    reveal_with_fuel(word_place, 5);
    assert(word_place(parts, "name"@, 0) == Some(1int));
    assert(word_place(parts, "value"@, 0) == Some(3int));
    assert(parts.subrange(2, 3) =~= seq![name]);
    assert(joined(seq![name]) == name);
}

/// The nodes of a second are as many as the time gives, whole ones.
pub proof fn nodes_are_counted_by_the_second(nodes: int, elapsed: int)
    requires
        0 <= nodes,
        nodes * 1000 < u64::MAX,
        0 <= elapsed,
    ensures
        elapsed == 0 ==> nodes_per_second(nodes, elapsed) == 0,
        elapsed > 0 ==> nodes_per_second(nodes, elapsed) * elapsed <= nodes * 1000 < (
        nodes_per_second(nodes, elapsed) + 1) * elapsed,
{
    if elapsed > 0 {
        let x = nodes * 1000;
        let q = x / elapsed;
        assert(q * elapsed <= x < (q + 1) * elapsed) by (nonlinear_arith)
            requires
                q == x / elapsed,
                elapsed > 0,
        ;
    }
}

/// One more move goes on from where the moves before it have led, if it is legal
/// there; and what cannot be played makes the whole line void.
pub proof fn moves_are_played_one_after_the_other(
    board: Position,
    keys: Seq<u64>,
    moves: Seq<Seq<char>>,
    last: Seq<char>,
)
    ensures
        after_moves(board, keys, moves.push(last)) == match after_moves(board, keys, moves) {
            None => None,
            Some((now, sofar)) => match uci_move(now, last) {
                None => None,
                Some(mv) => if legal_moves_of(now).contains(mv) {
                    Some((played(now, mv), sofar.push(played(now, mv).hash)))
                } else {
                    None
                },
            },
        },
    decreases moves.len(),
{
    if moves.len() == 0 {
        assert(moves.push(last)[0] == last);
        let rest = moves.push(last).drop_first();
        assert(rest =~= Seq::<Seq<char>>::empty());
        reveal_with_fuel(after_moves, 2);
    } else {
        assert(moves.push(last)[0] == moves[0]);
        assert(moves.push(last).drop_first() =~= moves.drop_first().push(last));
        if let Some(mv) = uci_move(board, moves[0]) {
            let next = played(board, mv);
            moves_are_played_one_after_the_other(
                next,
                keys.push(next.hash),
                moves.drop_first(),
                last,
            );
        }
    }
}

proof fn lemma_keys(board: Position, keys: Seq<u64>, moves: Seq<Seq<char>>)
    requires
        keys.len() > 0,
        keys.last() == board.hash,
    ensures
        after_moves(board, keys, moves) matches Some((now, all)) ==> all.len() == keys.len()
            + moves.len() && all.last() == now.hash && all.take(keys.len() as int) == keys,
    decreases moves.len(),
{
    if moves.len() == 0 {
        assert(keys.take(keys.len() as int) =~= keys);
    } else if let Some(mv) = uci_move(board, moves[0]) {
        let next = played(board, mv);
        let more = keys.push(next.hash);
        lemma_keys(next, more, moves.drop_first());
        if let Some((now, all)) = after_moves(next, more, moves.drop_first()) {
            assert(all.take(keys.len() as int) =~= all.take(more.len() as int).take(
                keys.len() as int,
            ));
            assert(more.take(keys.len() as int) =~= keys);
        }
    }
}

/// The keys of a line of moves are those of the start and of each position that
/// came after it: the last is that of the position reached.
pub proof fn every_position_of_a_line_is_remembered(line: Seq<char>)
    ensures
        position_of(line) matches Some((board, keys)) ==> keys.len() >= 1 && keys.last()
            == board.hash && match word_place(words(line), "moves"@, 0) {
            Some(i) => keys.len() == words(line).len() - i,
            None => keys.len() == 1,
        },
{
    let parts = words(line);
    lemma_word_place(parts, "moves"@, 0);
    if let Some(board) = crate::uci::start_of(parts) {
        let moves = match word_place(parts, "moves"@, 0) {
            Some(i) => parts.skip(i + 1),
            None => Seq::empty(),
        };
        lemma_keys(board, seq![board.hash], moves);
    }
}

proof fn lemma_no_such_word(parts: Seq<Seq<char>>, word: Seq<char>, from: int, to: int)
    requires
        0 <= from <= to <= parts.len(),
        forall|i: int| from <= i < to ==> #[trigger] parts[i] != word,
        to < parts.len() ==> parts[to] == word,
    ensures
        word_place(parts, word, from) == if to < parts.len() {
            Some(to)
        } else {
            None
        },
    decreases to - from,
{
    if from < to {
        assert(parts[from] != word);
        lemma_no_such_word(parts, word, from + 1, to);
    }
}

/// A position is given by a FEN, or is the start, and by the moves played from it,
/// if there are any.
pub proof fn a_position_is_given_by_its_start_and_moves(
    line: Seq<char>,
    fields: Seq<Seq<char>>,
    moves: Seq<Seq<char>>,
)
    requires
        forall|i: int| 0 <= i < fields.len() ==> #[trigger] fields[i] != "moves"@,
    ensures
        words(line) == seq!["position"@, "fen"@] + fields + seq!["moves"@] + moves ==> position_of(
            line,
        ) == match fen_position(joined(fields), false) {
            Some(board) => after_moves(board, seq![board.hash], moves),
            None => None,
        },
        words(line) == seq!["position"@, "fen"@] + fields ==> position_of(line)
            == match fen_position(joined(fields), false) {
            Some(board) => Some((board, seq![board.hash])),
            None => None,
        },
        words(line) == seq!["position"@, "startpos"@, "moves"@] + moves ==> position_of(line)
            == match fen_position(START_FEN@, false) {
            Some(board) => after_moves(board, seq![board.hash], moves),
            None => None,
        },
        words(line) == seq!["position"@, "startpos"@] ==> position_of(line) == match fen_position(
            START_FEN@,
            false,
        ) {
            Some(board) => Some((board, seq![board.hash])),
            None => None,
        },
{
    reveal_strlit("position");
    reveal_strlit("fen");
    reveal_strlit("startpos");
    reveal_strlit("moves");
    assert("position"@.len() == 8 && "fen"@.len() == 3 && "startpos"@.len() == 8 && "moves"@.len()
        == 5);
    let parts = words(line);
    let n = fields.len() as int;
    let head = seq!["position"@, "fen"@] + fields;
    assert forall|i: int| 0 <= i < head.len() implies #[trigger] head[i] != "moves"@ by {
        if i >= 2 {
            assert(head[i] == fields[i - 2]);
        }
    }
    if parts == head + seq!["moves"@] + moves {
        assert forall|i: int| 0 <= i < n + 2 implies #[trigger] parts[i] != "moves"@ by {
            assert(parts[i] == head[i]);
        }
        assert(parts[n + 2] == "moves"@);
        lemma_no_such_word(parts, "moves"@, 0, n + 2);
        assert(parts.subrange(2, n + 2) =~= fields);
        assert(parts.skip(n + 3) =~= moves);
        assert(parts[1] == "fen"@);
    }
    if parts == head {
        lemma_no_such_word(parts, "moves"@, 0, n + 2);
        assert(parts.subrange(2, n + 2) =~= fields);
        assert(parts[1] == "fen"@);
    }
    if parts == seq!["position"@, "startpos"@, "moves"@] + moves {
        assert(parts[0] == "position"@ && parts[1] == "startpos"@ && parts[2] == "moves"@);
        lemma_no_such_word(parts, "moves"@, 0, 2);
        assert(parts.skip(3) =~= moves);
    }
    if parts == seq!["position"@, "startpos"@] {
        assert(parts[0] == "position"@ && parts[1] == "startpos"@);
        lemma_no_such_word(parts, "moves"@, 0, 2);
    }
}

proof fn lemma_word_place(parts: Seq<Seq<char>>, word: Seq<char>, from: int)
    requires
        0 <= from,
    ensures
        word_place(parts, word, from) matches Some(i) ==> from <= i < parts.len(),
    decreases parts.len() - from,
{
    if from < parts.len() && parts[from] != word {
        lemma_word_place(parts, word, from + 1);
    }
}

/// Each command has its own effect and no other, and what is not understood has
/// none. A search that is running is stopped first where the command needs it.
pub proof fn each_command_has_its_own_effect(c: Conversation, line: Seq<char>)
    requires
        words(line).len() > 0,
    ensures
        ({
            let word = words(line)[0];
            let (after, done) = heard(c, line);
            let stop = match c.active {
                Some(id) => seq![Deed::Stop(id)],
                None => Seq::empty(),
            };
            &&& word == "isready"@ ==> after == c && done == seq![Deed::Print("readyok"@)]
            &&& word == "uci"@ ==> after == c && done.len() == 4 && done[3] == Deed::Print("uciok"@)
            &&& word == "stop"@ ==> after == c && done == stop
            &&& word == "quit"@ ==> after == (Conversation { quitting: true, ..c }) && done
                == stop.push(Deed::Quit)
            &&& word == "ucinewgame"@ ==> after == (Conversation {
                history: seq![c.board.hash],
                ..c
            }) && done == stop.push(Deed::NewGame)
            &&& word == "position"@ ==> done.len() == 0 && after == match position_of(line) {
                Some((board, history)) => Conversation { board, history, ..c },
                None => c,
            }
            &&& word == "setoption"@ ==> after == c && done == match hash_option_of(line) {
                Some(size) => stop.push(Deed::SetHash(size)),
                None => Seq::empty(),
            }
            &&& word == "go"@ ==> after.board == c.board && after.history == c.history
                && after.active == Some(c.next_id) && after.quitting == c.quitting && (c.next_id
                < u64::MAX ==> after.next_id == c.next_id + 1) && done.len() == stop.len() + 1
                && done.drop_last() == stop && (done.last() matches Deed::Go {
                id,
                board,
                history,
                limits,
            } && id == c.next_id && board == c.board && history == c.history)
            &&& word != "isready"@ && word != "uci"@ && word != "stop"@ && word != "quit"@ && word
                != "ucinewgame"@ && word != "position"@ && word != "setoption"@ && word != "go"@
                ==> after == c && done.len() == 0
        }),
{
    reveal_strlit("isready");
    reveal_strlit("uci");
    reveal_strlit("stop");
    reveal_strlit("quit");
    reveal_strlit("ucinewgame");
    reveal_strlit("position");
    reveal_strlit("setoption");
    reveal_strlit("go");
    assert("isready"@.len() == 7 && "uci"@.len() == 3 && "ucinewgame"@.len() == 10
        && "position"@.len() == 8 && "setoption"@.len() == 9 && "go"@.len() == 2);
    assert("stop"@.len() == 4 && "stop"@[0] == 's' && "quit"@.len() == 4 && "quit"@[0] == 'q');
    let (after, done) = heard(c, line);
    if words(line)[0] == "go"@ {
        assert(done.drop_last() =~= stop_active(c));
    }
}

/// The answer to a search is its best move, or the null move where there is none.
pub proof fn the_answer_is_the_best_move(board: Position, mv: Move)
    ensures
        best_move_text(board, Some(mv)) == "bestmove "@ + crate::rules::uci_text(board, mv),
        best_move_text(board, None) == "bestmove "@ + "0000"@,
{
}

proof fn lemma_one_word_more(list: Seq<Seq<char>>, w: Seq<char>)
    requires
        list.len() > 0,
    ensures
        joined(list.push(w)) == joined(list) + seq![' '] + w,
{
    assert(list.push(w).drop_last() =~= list);
    assert(joined(list).push(' ') + w =~= joined(list) + seq![' '] + w);
}

proof fn lemma_labelled(
    list: Seq<Seq<char>>,
    name: Seq<char>,
    label: Seq<char>,
    value: Seq<char>,
)
    requires
        list.len() > 0,
        label == seq![' '] + name + seq![' '],
    ensures
        joined(list.push(name).push(value)) == joined(list) + label + value,
{
    lemma_one_word_more(list, name);
    lemma_one_word_more(list.push(name), value);
    assert(joined(list) + seq![' '] + name + seq![' '] + value =~= joined(list) + label + value);
}

/// What is told of a depth is a line of names with their numbers: the depth, the
/// score in hundredths of a pawn, the nodes, the time, the nodes of a second, and
/// the move.
pub proof fn each_depth_is_told_by_name(board: Position, info: SearchInfo)
    requires
        info.pv@.len() == 1,
    ensures
        info_text(board, info) == joined(
            seq![
                "info"@,
                "depth"@,
                signed_decimal(info.depth as int),
                "score"@,
                "cp"@,
                signed_decimal(info.score as int),
                "nodes"@,
                decimal(info.nodes as nat),
                "time"@,
                decimal(info.elapsed as nat),
                "nps"@,
                decimal(nodes_per_second(info.nodes as int, info.elapsed as int) as nat),
                "pv"@,
                crate::rules::uci_text(board, info.pv@[0]),
            ],
        ),
{
    reveal_strlit("info depth ");
    reveal_strlit("info");
    reveal_strlit("depth");
    reveal_strlit(" score cp ");
    reveal_strlit("score");
    reveal_strlit("cp");
    reveal_strlit(" nodes ");
    reveal_strlit("nodes");
    reveal_strlit(" time ");
    reveal_strlit("time");
    reveal_strlit(" nps ");
    reveal_strlit("nps");
    reveal_strlit(" pv ");
    reveal_strlit("pv");
    let depth = signed_decimal(info.depth as int);
    let score = signed_decimal(info.score as int);
    let nodes = decimal(info.nodes as nat);
    let time = decimal(info.elapsed as nat);
    let nps = decimal(nodes_per_second(info.nodes as int, info.elapsed as int) as nat);
    let mv = crate::rules::uci_text(board, info.pv@[0]);
    let l0 = seq!["info"@];
    assert(joined(l0) == "info"@);
    let l1 = l0.push("depth"@).push(depth);
    lemma_one_word_more(l0, "depth"@);
    lemma_one_word_more(l0.push("depth"@), depth);
    assert("info"@ + seq![' '] + "depth"@ + seq![' '] =~= "info depth "@);
    assert(joined(l1) == "info depth "@ + depth);
    let l2 = l1.push("score"@).push("cp"@).push(score);
    lemma_one_word_more(l1, "score"@);
    lemma_one_word_more(l1.push("score"@), "cp"@);
    lemma_one_word_more(l1.push("score"@).push("cp"@), score);
    assert(seq![' '] + "score"@ + seq![' '] + "cp"@ + seq![' '] =~= " score cp "@);
    assert(joined(l1) + seq![' '] + "score"@ + seq![' '] + "cp"@ + seq![' '] + score =~= joined(l1)
        + (seq![' '] + "score"@ + seq![' '] + "cp"@ + seq![' ']) + score);
    assert(joined(l2) == joined(l1) + " score cp "@ + score);
    let l3 = l2.push("nodes"@).push(nodes);
    assert(seq![' '] + "nodes"@ + seq![' '] =~= " nodes "@);
    lemma_labelled(l2, "nodes"@, " nodes "@, nodes);
    let l4 = l3.push("time"@).push(time);
    assert(seq![' '] + "time"@ + seq![' '] =~= " time "@);
    lemma_labelled(l3, "time"@, " time "@, time);
    let l5 = l4.push("nps"@).push(nps);
    assert(seq![' '] + "nps"@ + seq![' '] =~= " nps "@);
    lemma_labelled(l4, "nps"@, " nps "@, nps);
    let l6 = l5.push("pv"@).push(mv);
    assert(seq![' '] + "pv"@ + seq![' '] =~= " pv "@);
    lemma_labelled(l5, "pv"@, " pv "@, mv);
    let pv = info.pv@.map_values(|m: Move| crate::rules::uci_text(board, m));
    assert(pv =~= seq![mv]);
    assert(joined(seq![mv]) == mv);
    assert(l6 =~= seq![
        "info"@,
        "depth"@,
        depth,
        "score"@,
        "cp"@,
        score,
        "nodes"@,
        nodes,
        "time"@,
        time,
        "nps"@,
        nps,
        "pv"@,
        mv,
    ]);
}

/// The moves to search are those of the words behind `searchmoves`, as far as they
/// are moves, in their order.
pub proof fn moves_to_search_keep_their_order(
    board: Position,
    parts: Seq<Seq<char>>,
    word: Seq<char>,
)
    ensures
        moves_of(board, parts.push(word)) == match uci_move(board, word) {
            Some(mv) => moves_of(board, parts).push(mv),
            None => moves_of(board, parts),
        },
        moves_of(board, Seq::empty()).len() == 0,
{
    assert(parts.push(word).drop_last() =~= parts);
}

/// All words behind `searchmoves` are moves, and no limits.
pub proof fn searchmoves_take_the_rest(
    parts: Seq<Seq<char>>,
    i: int,
    board: Position,
    l: Limits,
)
    requires
        0 <= i < parts.len(),
        parts[i] == "searchmoves"@,
    ensures
        limits_from(parts, i, board, l) == (Limits {
            searchmoves: l.searchmoves + moves_of(board, parts.skip(i + 1)),
            ..l
        }),
{
    reveal_go_words();
}

/// A number is read up to the largest that is allowed, with or without a plus sign,
/// and nothing else is a number; one of 32 bits may be negative.
pub proof fn only_numbers_in_range_are_read(n: nat, max: int, s: Seq<char>, i: int)
    ensures
        unsigned(decimal(n), max) == if n <= max {
            Some(n as int)
        } else {
            None
        },
        unsigned(seq!['+'] + decimal(n), max) == if n <= max {
            Some(n as int)
        } else {
            None
        },
        signed(seq!['-'] + decimal(n)) == if n <= 2_147_483_648 {
            Some(-(n as int))
        } else {
            None
        },
        signed(decimal(n)) == if n <= 2_147_483_647 {
            Some(n as int)
        } else {
            None
        },
        unsigned(Seq::empty(), max) is None,
        0 <= i < s.len() && !('0' as int <= s[i] as int <= '9' as int) && (i > 0 || s[0] != '+')
            ==> unsigned(s, max) is None,
        0 <= i < s.len() && !('0' as int <= s[i] as int <= '9' as int) && (i > 0 || (s[0] != '+'
            && s[0] != '-')) ==> signed(s) is None,
{
    crate::text::lemma_decimal(n);
    let d = decimal(n);
    assert((seq!['+'] + d).skip(1) =~= d);
    assert((seq!['-'] + d).skip(1) =~= d);
    if 0 <= i < s.len() && !('0' as int <= s[i] as int <= '9' as int) {
        assert(!crate::text::is_digit(s[i]));
        if i > 0 {
            assert(s.skip(1)[i - 1] == s[i]);
            assert(!crate::text::is_digit(s.skip(1)[i - 1]));
        }
    }
}

/// A word that asks for a number at the end of a line sets no limit.
pub proof fn a_limit_without_a_number_is_none(
    parts: Seq<Seq<char>>,
    board: Position,
    l: Limits,
)
    requires
        parts.len() > 0,
    ensures
        ({
            let word = parts.last();
            let all = limits_from(parts, parts.len() - 1, board, l);
            &&& word == "depth"@ ==> all == (Limits { depth: None, ..l })
            &&& word == "nodes"@ ==> all == (Limits { nodes: None, ..l })
            &&& word == "movetime"@ ==> all == (Limits { movetime: None, ..l })
            &&& word == "wtime"@ ==> all == (Limits { wtime: None, ..l })
            &&& word == "btime"@ ==> all == (Limits { btime: None, ..l })
            &&& word == "winc"@ ==> all == (Limits { winc: None, ..l })
            &&& word == "binc"@ ==> all == (Limits { binc: None, ..l })
            &&& word == "movestogo"@ ==> all == (Limits { movestogo: None, ..l })
        }),
{
    reveal_go_words();
    let n = parts.len() as int;
    assert(crate::uci::past(parts, n - 1) == n);
    reveal_with_fuel(limits_from, 2);
}

/// Names are the same in capitals, letter by letter; nothing else is.
pub proof fn capitals_make_no_difference(a: char, b: char)
    ensures
        same_but_for_case(seq![a], seq![b]) <==> a == b || ('A' as int <= a as int <= 'Z' as int
            && b as int == a as int + 32) || ('A' as int <= b as int <= 'Z' as int && a as int
            == b as int + 32),
{
    let x = seq![a];
    let y = seq![b];
    assert(x[0] == a && y[0] == b);
    if crate::text::lower(a) == crate::text::lower(b) {
        assert(same_but_for_case(x, y));
    }
}

} // verus!
