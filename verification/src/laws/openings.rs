//! The openings that games start from.

use crate::genfens::{book_fen, epd_value_from, normalized, trimmed};
use crate::rules::{fen_position, fen_text, parsed_position};
use crate::selfplay::{opening_of, openings_of};
use crate::text::{decimal, joined, same_but_for_case, unsigned, words, written_number_is_read};
use vstd::prelude::*;

verus! {

/// An opening is read from the first four words of a line, with clocks that start
/// anew; what stands behind them makes no difference.
pub proof fn an_opening_is_its_first_four_words(
    line: Seq<char>,
    men: Seq<char>,
    side: Seq<char>,
    castling: Seq<char>,
    passing: Seq<char>,
)
    requires
        words(line).len() >= 4,
        words(line)[0] == men,
        words(line)[1] == side,
        words(line)[2] == castling,
        words(line)[3] == passing,
    ensures
        opening_of(line) == fen_position(
            men + " "@ + side + " "@ + castling + " "@ + passing + " 0 1"@,
            false,
        ),
{
    reveal_strlit(" ");
    let list = words(line).take(4);
    let three = list.drop_last();
    let two = three.drop_last();
    let one = two.drop_last();
    assert(list.last() == passing && three.last() == castling && two.last() == side);
    assert(one.len() == 1 && one[0] == men);
    assert(joined(one) == men);
    assert(joined(two) =~= men + " "@ + side);
    assert(joined(three) =~= men + " "@ + side + " "@ + castling);
    assert(joined(list) =~= men + " "@ + side + " "@ + castling + " "@ + passing);
}

/// A line with fewer words is no opening. The openings of a file are those of its
/// lines, in their order.
pub proof fn openings_keep_their_order(lines: Seq<Seq<char>>, line: Seq<char>)
    ensures
        words(line).len() < 4 ==> opening_of(line) is None,
        opening_of(line) matches Some(board) ==> openings_of(lines.push(line)) == openings_of(
            lines,
        ).push(board),
        opening_of(line) is None ==> openings_of(lines.push(line)) == openings_of(lines),
        openings_of(Seq::empty()).len() == 0,
{
    assert(lines.push(line).drop_last() =~= lines);
}

proof fn lemma_digit_ends(n: nat)
    ensures
        decimal(n).len() > 0,
        decimal(n).last() != ';',
{
    let c = (48 + n % 10) as char;
    assert(decimal(n).last() == crate::text::digit_of((n % 10) as int));
}

/// A line of a book that gives its clocks as a FEN does keeps them.
pub proof fn a_fen_in_a_book_keeps_its_clocks(line: Seq<char>, half: u8, full: u16)
    requires
        words(line).len() == 6,
        words(line)[4] == decimal(half as nat),
        words(line)[5] == decimal(full as nat),
    ensures
        book_fen(words(line)) == joined(words(line)),
        normalized(line) == match parsed_position(joined(words(line))) {
            Some(board) => Some(fen_text(board)),
            None => None,
        },
{
    reveal_strlit(" ");
    let f = words(line);
    written_number_is_read(half as nat, u8::MAX as int);
    written_number_is_read(full as nat, u16::MAX as int);
    let five = f.drop_last();
    let four = five.drop_last();
    let three = four.drop_last();
    let two = three.drop_last();
    let one = two.drop_last();
    assert(f.last() == f[5] && five.last() == f[4] && four.last() == f[3] && three.last() == f[2]
        && two.last() == f[1] && one.len() == 1 && one[0] == f[0]);
    assert(joined(one) == f[0]);
    assert(joined(two) =~= f[0] + " "@ + f[1]);
    assert(joined(three) =~= f[0] + " "@ + f[1] + " "@ + f[2]);
    assert(joined(four) =~= f[0] + " "@ + f[1] + " "@ + f[2] + " "@ + f[3]);
    assert(joined(five) =~= f[0] + " "@ + f[1] + " "@ + f[2] + " "@ + f[3] + " "@ + f[4]);
    assert(joined(f) =~= f[0] + " "@ + f[1] + " "@ + f[2] + " "@ + f[3] + " "@ + f[4] + " "@ + f[5]);
}

/// A line of a book that gives its clocks by name has those clocks: `hmvc` is the
/// number of plies without a capture or a pawn move, `fmvn` the number of the move.
pub proof fn named_clocks_are_read(f: Seq<Seq<char>>, half: u8, full: u16)
    requires
        f.len() == 8,
        f[4] == "hmvc"@,
        f[5] == decimal(half as nat).push(';'),
        f[6] == "fmvn"@,
        f[7] == decimal(full as nat).push(';'),
    ensures
        book_fen(f) == f[0] + " "@ + f[1] + " "@ + f[2] + " "@ + f[3] + " "@ + decimal(half as nat)
            + " "@ + decimal(full as nat),
{
    reveal_strlit("hmvc");
    reveal_strlit("fmvn");
    assert("hmvc"@.len() == 4 && "fmvn"@.len() == 4 && "hmvc"@[0] == 'h' && "fmvn"@[0] == 'f');
    written_number_is_read(half as nat, u16::MAX as int);
    written_number_is_read(full as nat, u16::MAX as int);
    lemma_trimmed(decimal(half as nat));
    lemma_trimmed(decimal(full as nat));
    lemma_digit_ends(half as nat);
    lemma_digit_ends(full as nat);
    assert(unsigned(f[4], u8::MAX as int) is None) by {
        assert(!crate::text::is_digit(f[4][0]));
    }
    assert(unsigned(f[5], u16::MAX as int) is None) by {
        let digits = decimal(half as nat);
        let n = digits.len() as int;
        assert(f[5][n] == ';');
        assert(!crate::text::is_digit(f[5][n]));
        if f[5][0] == '+' {
            assert(f[5].skip(1)[n - 1] == ';');
            assert(!crate::text::is_digit(f[5].skip(1)[n - 1]));
        }
    }
    assert(crate::text::lower("hmvc"@[0]) != crate::text::lower("fmvn"@[0]));
    assert(!same_but_for_case(f[4], "fmvn"@));
    lemma_not_a_name(decimal(half as nat).push(';'), "fmvn"@);
    reveal_with_fuel(epd_value_from, 4);
    assert(epd_value_from(f, 4, "hmvc"@) == Some(half as int));
    assert(epd_value_from(f, 4, "fmvn"@) == Some(full as int));
}

proof fn lemma_not_a_name(s: Seq<char>, name: Seq<char>)
    requires
        s.len() > 0,
        s.last() == ';',
        name.len() > 0,
        name.last() == 'n',
    ensures
        !same_but_for_case(s, name),
{
    if s.len() == name.len() {
        let i = s.len() - 1;
        assert(crate::text::lower(s[i]) != crate::text::lower(name[i]));
    }
}

proof fn lemma_trimmed(s: Seq<char>)
    requires
        s.len() > 0,
        s.last() != ';',
    ensures
        trimmed(s.push(';')) == s,
        trimmed(s) == s,
{
    let more = s.push(';');
    assert(more.drop_last() =~= s);
    assert(more.len() > 0 && more.last() == ';');
    assert(trimmed(more) == trimmed(s));
}

/// A line of a book without clocks starts them anew.
pub proof fn a_book_without_clocks_starts_them_anew(f: Seq<Seq<char>>)
    requires
        f.len() == 4,
    ensures
        book_fen(f) == f[0] + " "@ + f[1] + " "@ + f[2] + " "@ + f[3] + " "@ + "0"@ + " "@ + "1"@,
{
    reveal_strlit("0");
    reveal_strlit("1");
    assert(decimal(0) =~= "0"@);
    assert(decimal(1) =~= "1"@);
}

} // verus!
