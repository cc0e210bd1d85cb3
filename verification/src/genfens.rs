//! Opening positions on request: from a book, or from random moves.

use crate::chess::Position;
use crate::options::concat;
use crate::rng::{drawn, randomize_opening, randomized, stepped, SplitMix64};
use crate::rules::{fen_position, fen_text, parsed_position, START_FEN};
use crate::text::{
    characters, decimal, eq_ignore_ascii_case, parse_unsigned, push_decimal, same_but_for_case,
    same_text, split_whitespace, text_of, texts, unsigned, words,
};
use vstd::prelude::*;
use vstd::string::StringExecFns;

verus! {

/// How often a book is asked for a position.
pub const MAX_SAMPLE_ATTEMPTS: usize = 128;

pub const DEFAULT_RANDOM_PLIES: usize = 6;

/// What is asked for: so many positions, from a book or without one, after so
/// many random moves.
pub struct Command {
    pub count: usize,
    pub seed: u64,
    pub book: Option<String>,
    pub random_plies: usize,
}

/// What is asked for. As a value.
#[verifier::ext_equal]
pub struct Request {
    pub count: int,
    pub seed: int,
    pub book: Option<Seq<char>>,
    pub random_plies: int,
}

impl View for Command {
    type V = Request;

    open spec fn view(&self) -> Request {
        Request {
            count: self.count as int,
            seed: self.seed as int,
            book: match self.book {
                Some(path) => Some(path@),
                None => None,
            },
            random_plies: self.random_plies as int,
        }
    }
}

/// The word at a place, if there is one.
pub open spec fn word_at(list: Seq<Seq<char>>, i: int) -> Option<Seq<char>> {
    if 0 <= i < list.len() {
        Some(list[i])
    } else {
        None
    }
}

/// The number that a value writes, which must be there and not be zero.
pub open spec fn positive_of(value: Option<Seq<char>>, name: Seq<char>) -> Result<int, Seq<char>> {
    match value {
        None => Err("genfens requires an "@ + name),
        Some(text) => match unsigned(text, usize::MAX as int) {
            None => Err("invalid "@ + name),
            Some(n) => if n == 0 {
                Err(name + " must be positive"@)
            } else {
                Ok(n)
            },
        },
    }
}

/// Reads a number, which must be there and not be zero.
pub fn parse_positive(value: Option<&str>, name: &str) -> (r: Result<usize, String>)
    ensures
        match (
            r,
            positive_of(
                match value {
                    Some(text) => Some(text@),
                    None => None,
                },
                name@,
            ),
        ) {
            (Ok(a), Ok(b)) => a == b,
            (Err(a), Err(b)) => a@ == b,
            _ => false,
        },
{
    let text: &str = match value {
        Some(text) => text,
        None => {
            return Err(concat("genfens requires an ", name));
        },
    };
    match parse_unsigned(text, usize::MAX as u64) {
        None => Err(concat("invalid ", name)),
        Some(n) => if n == 0 {
            Err(concat(name, " must be positive"))
        } else {
            Ok(n as usize)
        },
    }
}

/// Where the first equals sign from a place on is, or the end.
pub open spec fn equals_sign(s: Seq<char>, i: int) -> int
    decreases s.len() - i,
{
    if 0 <= i < s.len() && s[i] != '=' {
        equals_sign(s, i + 1)
    } else {
        i
    }
}

/// The name of an option, which is what stands before an equals sign.
pub open spec fn option_name(s: Seq<char>) -> Seq<char> {
    s.take(equals_sign(s, 0))
}

/// The value that an option has behind an equals sign, or nothing.
pub open spec fn inline_value(s: Seq<char>) -> Seq<char> {
    if equals_sign(s, 0) < s.len() {
        s.skip(equals_sign(s, 0) + 1)
    } else {
        Seq::empty()
    }
}

/// Whether a name is that of the option for random plies.
pub open spec fn names_plies(name: Seq<char>) -> bool {
    ||| name == "--random-plies"@
    ||| name == "random-plies"@
    ||| name == "--plies"@
    ||| name == "plies"@
}

/// The random plies that arguments from a place on ask for. The last option
/// counts, and what is no option is passed over.
pub open spec fn plies_from(args: Seq<Seq<char>>, i: int, plies: int) -> Result<int, Seq<char>>
    decreases args.len() - i,
{
    if i < 0 || i >= args.len() {
        Ok(plies)
    } else if !names_plies(option_name(args[i])) {
        plies_from(args, i + 1, plies)
    } else {
        let inline = inline_value(args[i]);
        let next = if inline.len() == 0 {
            i + 1
        } else {
            i
        };
        if next >= args.len() {
            Err("random plies option requires a value"@)
        } else {
            match unsigned(
                if inline.len() == 0 {
                    args[next]
                } else {
                    inline
                },
                usize::MAX as int,
            ) {
                None => Err("invalid random plies value"@),
                Some(n) => plies_from(args, next + 1, n),
            }
        }
    }
}

/// Takes an argument apart at its first equals sign.
fn split_option(argument: &str) -> (r: (String, String))
    ensures
        r.0@ == option_name(argument@),
        r.1@ == inline_value(argument@),
{
    let chars: Vec<char> = characters(argument);
    let ghost s = argument@;
    let mut at: usize = 0;
    while at < chars.len() && chars[at] != '='
        invariant
            at <= chars@.len(),
            chars@ == s,
            equals_sign(s, 0) == equals_sign(s, at as int),
        decreases chars@.len() - at,
    {
        at = at + 1;
    }
    let name: String = text_of(&chars, 0, at);
    assert(s.subrange(0, at as int) =~= s.take(at as int));
    if at < chars.len() {
        let value: String = text_of(&chars, at + 1, chars.len());
        assert(s.subrange(at + 1, s.len() as int) =~= s.skip(at + 1));
        (name, value)
    } else {
        (name, String::new())
    }
}

/// Reads the random plies that arguments ask for.
pub fn parse_random_plies(arguments: &Vec<String>) -> (r: Result<usize, String>)
    ensures
        match (r, plies_from(texts(arguments@), 0, DEFAULT_RANDOM_PLIES as int)) {
            (Ok(a), Ok(b)) => a == b,
            (Err(a), Err(b)) => a@ == b,
            _ => false,
        },
{
    let ghost all = texts(arguments@);
    let mut plies: usize = DEFAULT_RANDOM_PLIES;
    let mut i: usize = 0;
    while i < arguments.len()
        invariant
            i <= arguments@.len(),
            all == texts(arguments@),
            plies_from(all, 0, DEFAULT_RANDOM_PLIES as int) == plies_from(
                all,
                i as int,
                plies as int,
            ),
        decreases arguments@.len() - i,
    {
        let (name, inline): (String, String) = split_option(arguments[i].as_str());
        assert(all[i as int] == arguments@[i as int]@);
        let wanted: bool = same_text(name.as_str(), "--random-plies") || same_text(
            name.as_str(),
            "random-plies",
        ) || same_text(name.as_str(), "--plies") || same_text(name.as_str(), "plies");
        if !wanted {
            i = i + 1;
        } else {
            let given: bool = characters(inline.as_str()).len() > 0;
            if !given {
                i = i + 1;
            }
            if i >= arguments.len() {
                return Err("random plies option requires a value".to_owned());
            }
            assert(all[i as int] == arguments@[i as int]@);
            let value: &str = if given {
                inline.as_str()
            } else {
                arguments[i].as_str()
            };
            match parse_unsigned(value, usize::MAX as u64) {
                None => {
                    return Err("invalid random plies value".to_owned());
                },
                Some(n) => {
                    plies = n as usize;
                },
            }
            i = i + 1;
        }
    }
    Ok(plies)
}

/// What a line asks for.
pub open spec fn request_of(line: Seq<char>) -> Result<Request, Seq<char>> {
    let w = words(line);
    if word_at(w, 0) != Some("genfens"@) {
        Err("genfens command must start with genfens"@)
    } else {
        match positive_of(word_at(w, 1), "opening count"@) {
            Err(e) => Err(e),
            Ok(count) => if word_at(w, 2) != Some("seed"@) {
                Err("genfens requires seed <u64>"@)
            } else if w.len() < 4 {
                Err("genfens requires a seed"@)
            } else {
                match unsigned(w[3], u64::MAX as int) {
                    None => Err("invalid genfens seed"@),
                    Some(seed) => if word_at(w, 4) != Some("book"@) || w.len() < 6 {
                        Err("genfens requires book <path|None>"@)
                    } else {
                        match plies_from(w.skip(6), 0, DEFAULT_RANDOM_PLIES as int) {
                            Err(e) => Err(e),
                            Ok(random_plies) => Ok(
                                Request {
                                    count,
                                    seed,
                                    book: if same_but_for_case(w[5], "none"@) {
                                        None
                                    } else {
                                        Some(w[5])
                                    },
                                    random_plies,
                                },
                            ),
                        }
                    },
                }
            },
        }
    }
}

fn is_word(list: &Vec<String>, i: usize, word: &str) -> (r: bool)
    ensures
        r == (word_at(texts(list@), i as int) == Some(word@)),
{
    i < list.len() && same_text(list[i].as_str(), word)
}

/// The texts of a list from a place on.
fn rest_of(list: &Vec<String>, from: usize) -> (r: Vec<String>)
    requires
        from <= list@.len(),
    ensures
        texts(r@) == texts(list@).skip(from as int),
{
    let mut out: Vec<String> = Vec::new();
    let mut i: usize = from;
    while i < list.len()
        invariant
            from <= i <= list@.len(),
            out@.len() == i - from,
            forall|j: int| 0 <= j < out@.len() ==> (#[trigger] out@[j])@ == list@[from + j]@,
        decreases list@.len() - i,
    {
        out.push(list[i].clone());
        i = i + 1;
    }
    assert(texts(out@) =~= texts(list@).skip(from as int));
    out
}

/// Reads what a line asks for.
pub fn parse_command(line: &str) -> (r: Result<Command, String>)
    ensures
        match (r, request_of(line@)) {
            (Ok(a), Ok(b)) => a@ == b,
            (Err(a), Err(b)) => a@ == b,
            _ => false,
        },
        r matches Ok(command) ==> command.count > 0,
{
    let w: Vec<String> = split_whitespace(line);
    let ghost all = words(line@);
    assert(all == texts(w@) && all.len() == w@.len());
    assert(forall|i: int| 0 <= i < w@.len() ==> all[i] == (#[trigger] w@[i])@);
    if !is_word(&w, 0, "genfens") {
        return Err("genfens command must start with genfens".to_owned());
    }
    let first: Option<&str> = if w.len() > 1 {
        Some(w[1].as_str())
    } else {
        None
    };
    let count: usize = match parse_positive(first, "opening count") {
        Ok(count) => count,
        Err(e) => {
            return Err(e);
        },
    };
    if !is_word(&w, 2, "seed") {
        return Err("genfens requires seed <u64>".to_owned());
    }
    if w.len() < 4 {
        return Err("genfens requires a seed".to_owned());
    }
    let seed: u64 = match parse_unsigned(w[3].as_str(), u64::MAX) {
        Some(seed) => seed,
        None => {
            return Err("invalid genfens seed".to_owned());
        },
    };
    if !is_word(&w, 4, "book") || w.len() < 6 {
        return Err("genfens requires book <path|None>".to_owned());
    }
    let random_plies: usize = match parse_random_plies(&rest_of(&w, 6)) {
        Ok(plies) => plies,
        Err(e) => {
            return Err(e);
        },
    };
    let book: Option<String> = if eq_ignore_ascii_case(w[5].as_str(), "none") {
        None
    } else {
        Some(w[5].clone())
    };
    let r = Command { count, seed, book, random_plies };
    assert(request_of(line@) matches Ok(b) && r@ =~= b);
    Ok(r)
}

/// A text without the semicolons at its end.
pub open spec fn trimmed(s: Seq<char>) -> Seq<char>
    decreases s.len(),
{
    if s.len() > 0 && s.last() == ';' {
        trimmed(s.drop_last())
    } else {
        s
    }
}

fn trim_end(text: &str) -> (r: String)
    ensures
        r@ == trimmed(text@),
{
    let chars: Vec<char> = characters(text);
    let ghost s = text@;
    let mut end: usize = chars.len();
    assert(s.take(end as int) =~= s);
    while end > 0 && chars[end - 1] == ';'
        invariant
            end <= chars@.len(),
            chars@ == s,
            trimmed(s) == trimmed(s.take(end as int)),
        decreases end,
    {
        assert(s.take(end as int).drop_last() =~= s.take(end - 1));
        end = end - 1;
    }
    assert(s.subrange(0, end as int) =~= s.take(end as int));
    text_of(&chars, 0, end)
}

/// The number behind the first field from a place on that has a name. The last
/// field names nothing.
pub open spec fn epd_value_from(fields: Seq<Seq<char>>, i: int, name: Seq<char>) -> Option<int>
    decreases fields.len() - i,
{
    if i < 0 || i + 1 >= fields.len() {
        None
    } else if same_but_for_case(fields[i], name) {
        unsigned(trimmed(fields[i + 1]), u16::MAX as int)
    } else {
        epd_value_from(fields, i + 1, name)
    }
}

/// The number behind the first field from a place on that has a name.
fn epd_value(fields: &Vec<String>, from: usize, name: &str) -> (r: Option<u64>)
    requires
        from <= fields@.len(),
    ensures
        match r {
            Some(n) => epd_value_from(texts(fields@), from as int, name@) == Some(n as int) && n
                <= u16::MAX,
            None => epd_value_from(texts(fields@), from as int, name@) is None,
        },
{
    let ghost all = texts(fields@);
    let mut i: usize = from;
    while fields.len() - i > 1
        invariant
            i <= fields@.len(),
            all == texts(fields@),
            epd_value_from(all, from as int, name@) == epd_value_from(all, i as int, name@),
        decreases fields@.len() - i,
    {
        assert(all[i as int] == fields@[i as int]@);
        assert(all[i + 1] == fields@[i + 1]@);
        if eq_ignore_ascii_case(fields[i].as_str(), name) {
            return parse_unsigned(trim_end(fields[i + 1].as_str()).as_str(), u16::MAX as u64);
        }
        i = i + 1;
    }
    None
}

/// The number of a field, or else the one that an operation of the line gives,
/// if they are not too large.
pub open spec fn clock_of(
    fields: Seq<Seq<char>>,
    i: int,
    name: Seq<char>,
    max: int,
    otherwise: int,
) -> int {
    let plain = match word_at(fields, i) {
        Some(text) => unsigned(text, max),
        None => None,
    };
    match plain {
        Some(n) => n,
        None => match epd_value_from(fields, 4, name) {
            Some(n) if n <= max => n,
            _ => otherwise,
        },
    }
}

fn clock(fields: &Vec<String>, i: usize, name: &str, max: u64, otherwise: u64) -> (r: u64)
    requires
        fields@.len() >= 4,
    ensures
        r == clock_of(texts(fields@), i as int, name@, max as int, otherwise as int),
{
    if i < fields.len() {
        assert(texts(fields@)[i as int] == fields@[i as int]@);
        if let Some(n) = parse_unsigned(fields[i].as_str(), max) {
            return n;
        }
    }
    match epd_value(fields, 4, name) {
        Some(n) => if n <= max {
            n
        } else {
            otherwise
        },
        None => otherwise,
    }
}

/// The FEN that the fields of a line of a book make.
pub open spec fn book_fen(f: Seq<Seq<char>>) -> Seq<char> {
    f[0] + " "@ + f[1] + " "@ + f[2] + " "@ + f[3] + " "@ + decimal(
        clock_of(f, 4, "hmvc"@, u8::MAX as int, 0) as nat,
    ) + " "@ + decimal(clock_of(f, 5, "fmvn"@, u16::MAX as int, 1) as nat)
}

/// The full FEN of a line of a book, if it holds a position.
pub open spec fn normalized(line: Seq<char>) -> Option<Seq<char>> {
    let f = words(line);
    if f.len() < 4 {
        None
    } else {
        match parsed_position(book_fen(f)) {
            Some(board) => Some(fen_text(board)),
            None => None,
        }
    }
}

/// The full FEN of a line of a book, which may be an EPD with operations for
/// the clocks.
pub fn normalize_book_line(line: &str) -> (r: Option<String>)
    ensures
        match r {
            Some(fen) => normalized(line@) == Some(fen@),
            None => normalized(line@) is None,
        },
{
    let f: Vec<String> = split_whitespace(line);
    let ghost all = words(line@);
    assert(all == texts(f@) && all.len() == f@.len());
    if f.len() < 4 {
        return None;
    }
    assert(forall|i: int| 0 <= i < f@.len() ==> all[i] == (#[trigger] f@[i])@);
    let halfmove: u64 = clock(&f, 4, "hmvc", u8::MAX as u64, 0);
    let fullmove: u64 = clock(&f, 5, "fmvn", u16::MAX as u64, 1);
    let mut fen: String = f[0].clone();
    fen.append(" ");
    fen.append(f[1].as_str());
    fen.append(" ");
    fen.append(f[2].as_str());
    fen.append(" ");
    fen.append(f[3].as_str());
    fen.append(" ");
    push_decimal(&mut fen, halfmove);
    fen.append(" ");
    push_decimal(&mut fen, fullmove);
    assert(fen@ == book_fen(all));
    match Position::parse(fen.as_str()) {
        Some(board) => Some(board.fen()),
        None => None,
    }
}

/// The start position.
pub open spec fn start() -> Position {
    fen_position(START_FEN@, false)->0
}

/// The FEN of the start position after so many random moves.
pub fn random_position(rng: &mut SplitMix64, random_plies: usize) -> (r: String)
    ensures
        ({
            let (board, state) = randomized(start(), old(rng).state, random_plies as nat);
            r@ == fen_text(board) && final(rng).state == state
        }),
{
    let mut board: Position = Position::startpos();
    randomize_opening(&mut board, random_plies, rng);
    board.fen()
}

/// A sampler of a book of some length: it asks for lines at random places.
pub struct BookSampler {
    pub length: u64,
    pub attempts: usize,
}

impl BookSampler {
    /// A book that can be asked is not empty.
    pub open spec fn wf(self) -> bool {
        self.length > 0 && self.attempts <= MAX_SAMPLE_ATTEMPTS
    }

    /// A sampler of the book at a path.
    pub fn open(path: &str, length: u64) -> (r: Result<BookSampler, String>)
        ensures
            match r {
                Ok(sampler) => length > 0 && sampler.length == length && sampler.attempts == 0
                    && sampler.wf(),
                Err(e) => length == 0 && e@ == "book is empty: "@ + path@,
            },
    {
        if length == 0 {
            return Err(concat("book is empty: ", path));
        }
        Ok(BookSampler { length, attempts: 0 })
    }

    /// Starts to look for another position.
    pub fn start(&mut self)
        requires
            old(self).wf(),
        ensures
            *final(self) == (BookSampler { attempts: 0, ..*old(self) }),
            final(self).wf(),
    {
        self.attempts = 0;
    }

    /// The place in the book to look at next, unless it was asked too often.
    /// The line that is meant is the next that starts there or behind.
    pub fn next_offset(&mut self, rng: &mut SplitMix64) -> (r: Result<u64, String>)
        requires
            old(self).wf(),
        ensures
            final(self).wf(),
            match r {
                Ok(offset) => {
                    &&& old(self).attempts < MAX_SAMPLE_ATTEMPTS
                    &&& *final(self) == (BookSampler {
                        attempts: (old(self).attempts + 1) as usize,
                        ..*old(self)
                    })
                    &&& final(rng).state == stepped(old(rng).state)
                    &&& offset == drawn(old(rng).state) as int % old(self).length as int
                    &&& offset < old(self).length
                },
                Err(e) => {
                    &&& old(self).attempts == MAX_SAMPLE_ATTEMPTS
                    &&& *final(self) == *old(self)
                    &&& final(rng).state == old(rng).state
                    &&& e@ == "unable to sample a valid FEN from the opening book"@
                },
            },
    {
        if self.attempts == MAX_SAMPLE_ATTEMPTS {
            return Err("unable to sample a valid FEN from the opening book".to_owned());
        }
        self.attempts = self.attempts + 1;
        Ok(rng.next_u64() % self.length)
    }

    /// The position of a line after so many random moves, if the line holds
    /// one. Nothing is drawn otherwise.
    pub fn sample_board(line: &str, rng: &mut SplitMix64, random_plies: usize) -> (r: Result<
        Option<Position>,
        String,
    >)
        ensures
            match normalized(line@) {
                None => r == Ok::<Option<Position>, String>(None) && final(rng).state == old(
                    rng,
                ).state,
                Some(fen) => match parsed_position(fen) {
                    None => r matches Err(e) && e@ == "book produced an invalid FEN"@
                        && final(rng).state == old(rng).state,
                    Some(board) => {
                        let (after, state) = randomized(
                            board,
                            old(rng).state,
                            random_plies as nat,
                        );
                        &&& r == Ok::<Option<Position>, String>(Some(after))
                        &&& after.valid()
                        &&& final(rng).state == state
                    },
                },
            },
    {
        let fen: String = match normalize_book_line(line) {
            Some(fen) => fen,
            None => {
                return Ok(None);
            },
        };
        match Position::parse(fen.as_str()) {
            None => Err("book produced an invalid FEN".to_owned()),
            Some(board) => {
                let mut board: Position = board;
                randomize_opening(&mut board, random_plies, rng);
                Ok(Some(board))
            },
        }
    }
}

/// The answer that gives a position.
pub fn format_fen(fen: &str) -> (r: String)
    ensures
        r@ == "info string genfens "@ + fen@,
{
    concat("info string genfens ", fen)
}

} // verus!
