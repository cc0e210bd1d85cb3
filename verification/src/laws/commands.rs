//! What the tools are told to do.

use crate::bulk::{bulk_from, chunk_at, default_bulk, duration_text, two_digits, Bulk, ChunkError};
use crate::genfens::{plies_from, request_of, Request};
use crate::options::{
    count_option, part_end, parts_from, positive_option, same_path, signed_option, value_at,
};
use crate::selfplay::{clock_text, default_selfplay, game_seed_of, selfplay_from, Selfplay};
use crate::text::{
    decimal, same_but_for_case, words, written_number_is_read, written_signed_number_is_read,
};
use vstd::prelude::*;

verus! {

/// The options are told apart by their length and their letters.
proof fn lemma_options_differ()
    ensures
        "-h"@.len() == 2,
        "--help"@.len() == 6 && "--help"@[2] == 'h',
        "--input"@.len() == 7 && "--input"@[2] == 'i',
        "--output"@.len() == 8,
        "--openings"@.len() == 10,
        "--positions"@.len() == 11 && "--positions"@[2] == 'p',
        "--nodes"@.len() == 7 && "--nodes"@[2] == 'n',
        "--threads"@.len() == 9 && "--threads"@[2] == 't',
        "--hash-mb"@.len() == 9 && "--hash-mb"@[2] == 'h',
        "--max-plies"@.len() == 11 && "--max-plies"@[2] == 'm',
        "--warmup-plies"@.len() == 14 && "--warmup-plies"@[2] == 'w',
        "--random-plies"@.len() == 14 && "--random-plies"@[2] == 'r',
        "--win-score"@.len() == 11 && "--win-score"@[2] == 'w' && "--win-score"@[6] == 's',
        "--win-plies"@.len() == 11 && "--win-plies"@[2] == 'w' && "--win-plies"@[6] == 'p',
        "--seed"@.len() == 6 && "--seed"@[2] == 's',
        "--overwrite"@.len() == 11 && "--overwrite"@[2] == 'o',
        "--include-tactical"@.len() == 18,
{
    reveal_strlit("-h");
    reveal_strlit("--help");
    reveal_strlit("--input");
    reveal_strlit("--output");
    reveal_strlit("--openings");
    reveal_strlit("--positions");
    reveal_strlit("--nodes");
    reveal_strlit("--threads");
    reveal_strlit("--hash-mb");
    reveal_strlit("--max-plies");
    reveal_strlit("--warmup-plies");
    reveal_strlit("--random-plies");
    reveal_strlit("--win-score");
    reveal_strlit("--win-plies");
    reveal_strlit("--seed");
    reveal_strlit("--overwrite");
    reveal_strlit("--include-tactical");
}

/// Each option of a self-play run sets its own value to the number behind it, and no
/// other. Only the plies that are left out or played at random, and the seed, may be
/// nothing.
pub proof fn each_option_of_selfplay_sets_its_value(
    args: Seq<Option<Seq<char>>>,
    i: int,
    c: Selfplay,
    n: u64,
)
    requires
        0 <= i,
        i + 1 < args.len(),
        args[i] is Some,
        args[i + 1] == Some(decimal(n as nat)),
    ensures
        ({
            let word = args[i]->0;
            let all = selfplay_from(args, i, c);
            &&& word == "--positions"@ && n > 0 ==> all == selfplay_from(
                args,
                i + 2,
                Selfplay { positions: n, ..c },
            )
            &&& word == "--nodes"@ && n > 0 ==> all == selfplay_from(
                args,
                i + 2,
                Selfplay { nodes: n, ..c },
            )
            &&& word == "--threads"@ && 0 < n <= usize::MAX ==> all == selfplay_from(
                args,
                i + 2,
                Selfplay { threads: n as usize, ..c },
            )
            &&& word == "--hash-mb"@ && n > 0 ==> all == selfplay_from(
                args,
                i + 2,
                Selfplay { hash_mb: n, ..c },
            )
            &&& word == "--max-plies"@ && 0 < n <= usize::MAX ==> all == selfplay_from(
                args,
                i + 2,
                Selfplay { max_plies: n as usize, ..c },
            )
            &&& word == "--warmup-plies"@ && n <= usize::MAX ==> all == selfplay_from(
                args,
                i + 2,
                Selfplay { warmup_plies: n as usize, ..c },
            )
            &&& word == "--random-plies"@ && n <= usize::MAX ==> all == selfplay_from(
                args,
                i + 2,
                Selfplay { random_plies: n as usize, ..c },
            )
            &&& word == "--win-score"@ && 0 < n <= i32::MAX ==> all == selfplay_from(
                args,
                i + 2,
                Selfplay { win_score: n as i32, ..c },
            )
            &&& word == "--win-plies"@ && 0 < n <= usize::MAX ==> all == selfplay_from(
                args,
                i + 2,
                Selfplay { win_plies: n as usize, ..c },
            )
            &&& word == "--seed"@ ==> all == selfplay_from(
                args,
                i + 2,
                Selfplay { seed: n, ..c },
            )
            &&& word == "--output"@ ==> all == selfplay_from(
                args,
                i + 2,
                Selfplay { output: decimal(n as nat), ..c },
            )
            &&& word == "--openings"@ ==> all == selfplay_from(
                args,
                i + 2,
                Selfplay { openings: decimal(n as nat), ..c },
            )
            &&& word == "--overwrite"@ ==> all == selfplay_from(
                args,
                i + 1,
                Selfplay { overwrite: true, ..c },
            )
            &&& word == "-h"@ || word == "--help"@ ==> all == Ok::<Option<Selfplay>, Seq<char>>(None)
            &&& n == 0 && (word == "--positions"@ || word == "--nodes"@ || word == "--threads"@ || word
                == "--hash-mb"@ || word == "--max-plies"@ || word == "--win-score"@ || word
                == "--win-plies"@) ==> all == Err::<Option<Selfplay>, Seq<char>>(
                word + " must be positive"@,
            )
        }),
{
    lemma_options_differ();
    written_number_is_read(n as nat, u64::MAX as int);
    if n <= usize::MAX {
        written_number_is_read(n as nat, usize::MAX as int);
    }
    if n <= i32::MAX {
        written_signed_number_is_read(n as i32);
    }
}

/// Each option of a bulk evaluation sets its own value, and no other.
pub proof fn each_option_of_bulk_evaluation_sets_its_value(
    args: Seq<Option<Seq<char>>>,
    i: int,
    c: Bulk,
    n: u64,
)
    requires
        0 <= i,
        i + 1 < args.len(),
        args[i] is Some,
        args[i + 1] == Some(decimal(n as nat)),
    ensures
        ({
            let word = args[i]->0;
            let all = bulk_from(args, i, c);
            &&& word == "--positions"@ && n > 0 ==> all == bulk_from(
                args,
                i + 2,
                Bulk { positions: n, ..c },
            )
            &&& word == "--nodes"@ && n > 0 ==> all == bulk_from(
                args,
                i + 2,
                Bulk { nodes: n, ..c },
            )
            &&& word == "--threads"@ && 0 < n <= usize::MAX ==> all == bulk_from(
                args,
                i + 2,
                Bulk { threads: n as usize, ..c },
            )
            &&& word == "--hash-mb"@ && n > 0 ==> all == bulk_from(
                args,
                i + 2,
                Bulk { hash_mb: n, ..c },
            )
            &&& word == "--input"@ ==> all == bulk_from(
                args,
                i + 2,
                Bulk { input: decimal(n as nat), ..c },
            )
            &&& word == "--output"@ ==> all == bulk_from(
                args,
                i + 2,
                Bulk { output: decimal(n as nat), ..c },
            )
            &&& word == "--overwrite"@ ==> all == bulk_from(args, i + 1, Bulk { overwrite: true, ..c })
            &&& word == "--include-tactical"@ ==> all == bulk_from(
                args,
                i + 1,
                Bulk { include_tactical: true, ..c },
            )
            &&& word == "-h"@ || word == "--help"@ ==> all == Ok::<Option<Bulk>, Seq<char>>(None)
            &&& n == 0 && (word == "--positions"@ || word == "--nodes"@ || word == "--threads"@ || word
                == "--hash-mb"@) ==> all == Err::<Option<Bulk>, Seq<char>>(
                word + " must be positive"@,
            )
        }),
{
    lemma_options_differ();
    written_number_is_read(n as nat, u64::MAX as int);
    if n <= usize::MAX {
        written_number_is_read(n as nat, usize::MAX as int);
    }
}

/// What is not given is as the help text says.
pub proof fn what_is_not_given_has_its_default(threads: usize)
    ensures
        default_selfplay(threads) == (Selfplay {
            output: "datagen/selfplay.txt"@,
            openings: "materials/fastchess/books/UHO_Lichess_4852_v1_noob_4moves_dedup.epd"@,
            positions: 0,
            nodes: 1000,
            threads,
            hash_mb: 4,
            max_plies: 400,
            warmup_plies: 8,
            random_plies: 2,
            win_score: 1500,
            win_plies: 8,
            seed: 12_345,
            overwrite: false,
        }),
        default_bulk(threads) == (Bulk {
            input: "datagen/positions.tar.zst"@,
            output: "datagen/positions.txt"@,
            positions: 0,
            nodes: 10_000,
            threads,
            hash_mb: 4,
            include_tactical: false,
            overwrite: false,
        }),
{
}

/// No self-play run starts without positions to write.
pub proof fn a_selfplay_run_has_something_to_write(
    args: Seq<Option<Seq<char>>>,
    i: int,
    c: Selfplay,
)
    requires
        0 <= i <= args.len(),
    ensures
        selfplay_from(args, i, c) matches Ok(Some(r)) ==> r.positions > 0,
    decreases args.len() - i,
{
    if 0 <= i < args.len() {
        if i + 1 < args.len() {
            if let Ok(v) = value_at(args, i + 1, "--output"@) {
                a_selfplay_run_has_something_to_write(args, i + 2, Selfplay { output: v, ..c });
            }
            if let Ok(v) = value_at(args, i + 1, "--openings"@) {
                a_selfplay_run_has_something_to_write(args, i + 2, Selfplay { openings: v, ..c });
            }
            if let Ok(v) = positive_option(args, i + 1, "--positions"@, u64::MAX as int) {
                a_selfplay_run_has_something_to_write(args, i + 2, Selfplay { positions: v, ..c });
            }
            if let Ok(v) = positive_option(args, i + 1, "--nodes"@, u64::MAX as int) {
                a_selfplay_run_has_something_to_write(args, i + 2, Selfplay { nodes: v, ..c });
            }
            if let Ok(v) = positive_option(args, i + 1, "--threads"@, usize::MAX as int) {
                a_selfplay_run_has_something_to_write(args, i + 2, Selfplay { threads: v as usize, ..c });
            }
            if let Ok(v) = positive_option(args, i + 1, "--hash-mb"@, u64::MAX as int) {
                a_selfplay_run_has_something_to_write(args, i + 2, Selfplay { hash_mb: v, ..c });
            }
            if let Ok(v) = positive_option(args, i + 1, "--max-plies"@, usize::MAX as int) {
                a_selfplay_run_has_something_to_write(args, i + 2, Selfplay { max_plies: v as usize, ..c });
            }
            if let Ok(v) = count_option(args, i + 1, "--warmup-plies"@, usize::MAX as int) {
                a_selfplay_run_has_something_to_write(args, i + 2, Selfplay { warmup_plies: v as usize, ..c });
            }
            if let Ok(v) = count_option(args, i + 1, "--random-plies"@, usize::MAX as int) {
                a_selfplay_run_has_something_to_write(args, i + 2, Selfplay { random_plies: v as usize, ..c });
            }
            if let Ok(v) = signed_option(args, i + 1, "--win-score"@) {
                a_selfplay_run_has_something_to_write(args, i + 2, Selfplay { win_score: v, ..c });
            }
            if let Ok(v) = positive_option(args, i + 1, "--win-plies"@, usize::MAX as int) {
                a_selfplay_run_has_something_to_write(args, i + 2, Selfplay { win_plies: v as usize, ..c });
            }
            if let Ok(v) = crate::selfplay::seed_option(args, i + 1) {
                a_selfplay_run_has_something_to_write(args, i + 2, Selfplay { seed: v, ..c });
            }
        }
        a_selfplay_run_has_something_to_write(args, i + 1, Selfplay { overwrite: true, ..c });
    }
}

/// No bulk evaluation starts without positions to write, or would write over what it
/// reads.
pub proof fn a_bulk_evaluation_has_something_to_write(
    args: Seq<Option<Seq<char>>>,
    i: int,
    c: Bulk,
)
    requires
        0 <= i <= args.len(),
    ensures
        bulk_from(args, i, c) matches Ok(Some(r)) ==> r.positions > 0 && r.input != r.output,
    decreases args.len() - i,
{
    if 0 <= i < args.len() {
        if i + 1 < args.len() {
            if let Ok(v) = value_at(args, i + 1, "--input"@) {
                a_bulk_evaluation_has_something_to_write(args, i + 2, Bulk { input: v, ..c });
            }
            if let Ok(v) = value_at(args, i + 1, "--output"@) {
                a_bulk_evaluation_has_something_to_write(args, i + 2, Bulk { output: v, ..c });
            }
            if let Ok(v) = positive_option(args, i + 1, "--positions"@, u64::MAX as int) {
                a_bulk_evaluation_has_something_to_write(args, i + 2, Bulk { positions: v, ..c });
            }
            if let Ok(v) = positive_option(args, i + 1, "--nodes"@, u64::MAX as int) {
                a_bulk_evaluation_has_something_to_write(args, i + 2, Bulk { nodes: v, ..c });
            }
            if let Ok(v) = positive_option(args, i + 1, "--threads"@, usize::MAX as int) {
                a_bulk_evaluation_has_something_to_write(args, i + 2, Bulk { threads: v as usize, ..c });
            }
            if let Ok(v) = positive_option(args, i + 1, "--hash-mb"@, u64::MAX as int) {
                a_bulk_evaluation_has_something_to_write(args, i + 2, Bulk { hash_mb: v, ..c });
            }
        }
        a_bulk_evaluation_has_something_to_write(args, i + 1, Bulk { include_tactical: true, ..c });
        a_bulk_evaluation_has_something_to_write(args, i + 1, Bulk { overwrite: true, ..c });
    }
}

/// What an opening generator is asked for is read as it was written: so many
/// openings, the seed, the book if there is one, and six random plies where no other
/// number is given behind.
pub proof fn openings_are_generated_as_asked(
    line: Seq<char>,
    count: usize,
    seed: u64,
    book: Seq<char>,
    rest: Seq<Seq<char>>,
)
    requires
        words(line) == seq![
            "genfens"@,
            decimal(count as nat),
            "seed"@,
            decimal(seed as nat),
            "book"@,
            book,
        ] + rest,
    ensures
        count > 0 ==> request_of(line) == match plies_from(rest, 0, 6) {
            Ok(random_plies) => Ok(
                Request {
                    count: count as int,
                    seed: seed as int,
                    book: if same_but_for_case(book, "none"@) {
                        None
                    } else {
                        Some(book)
                    },
                    random_plies,
                },
            ),
            Err(error) => Err::<Request, Seq<char>>(error),
        },
        count == 0 ==> request_of(line) == Err::<Request, Seq<char>>(
            "opening count must be positive"@,
        ),
        plies_from(Seq::empty(), 0, 6) == Ok::<int, Seq<char>>(6),
{
    let w = words(line);
    written_number_is_read(count as nat, usize::MAX as int);
    written_number_is_read(seed as nat, u64::MAX as int);
    assert(w.skip(6) =~= rest);
    assert(w[0] == "genfens"@ && w[1] == decimal(count as nat) && w[2] == "seed"@ && w[3] == decimal(
        seed as nat,
    ) && w[4] == "book"@ && w[5] == book);
    reveal_strlit("opening count");
    reveal_strlit(" must be positive");
    reveal_strlit("opening count must be positive");
    assert("opening count"@ + " must be positive"@ =~= "opening count must be positive"@);
}

/// The random plies of an opening are the ones asked for, in each way of asking.
pub proof fn random_plies_are_played_as_asked(
    name: Seq<char>,
    plies: usize,
    otherwise: int,
)
    requires
        name == "--random-plies"@ || name == "random-plies"@ || name == "--plies"@ || name
            == "plies"@,
    ensures
        plies_from(seq![name, decimal(plies as nat)], 0, otherwise) == Ok::<int, Seq<char>>(
            plies as int,
        ),
        plies_from(seq![name + "="@ + decimal(plies as nat)], 0, otherwise) == Ok::<int, Seq<char>>(
            plies as int,
        ),
        plies_from(seq![name], 0, otherwise) is Err,
{
    reveal_strlit("--random-plies");
    reveal_strlit("random-plies");
    reveal_strlit("--plies");
    reveal_strlit("plies");
    reveal_strlit("=");
    written_number_is_read(plies as nat, usize::MAX as int);
    lemma_no_equals_sign(name, 0);
    assert(name.take(name.len() as int) =~= name);
    assert(crate::genfens::option_name(name) == name);
    assert(crate::genfens::inline_value(name).len() == 0);
    let apart = seq![name, decimal(plies as nat)];
    assert(apart[0] == name && apart[1] == decimal(plies as nat));
    assert(plies_from(apart, 2, plies as int) == Ok::<int, Seq<char>>(plies as int));
    assert(plies_from(apart, 0, otherwise) == plies_from(apart, 2, plies as int));
    let digits = decimal(plies as nat);
    let whole = name + "="@ + digits;
    lemma_equals_sign_after(name, digits, 0);
    assert(whole.take(name.len() as int) =~= name);
    assert(whole.skip(name.len() as int + 1) =~= digits);
    let inline = seq![whole];
    assert(digits.len() > 0);
    assert(crate::genfens::option_name(inline[0]) == name);
    assert(crate::genfens::inline_value(inline[0]) == digits);
    assert(plies_from(inline, 1, plies as int) == Ok::<int, Seq<char>>(plies as int));
}

proof fn lemma_no_equals_sign(s: Seq<char>, i: int)
    requires
        0 <= i <= s.len(),
        forall|k: int| 0 <= k < s.len() ==> s[k] != '=',
    ensures
        crate::genfens::equals_sign(s, i) == s.len(),
    decreases s.len() - i,
{
    if i < s.len() {
        lemma_no_equals_sign(s, i + 1);
    }
}

proof fn lemma_equals_sign_after(s: Seq<char>, rest: Seq<char>, i: int)
    requires
        0 <= i <= s.len(),
        forall|k: int| 0 <= k < s.len() ==> s[k] != '=',
    ensures
        crate::genfens::equals_sign(s + "="@ + rest, i) == s.len(),
    decreases s.len() - i,
{
    reveal_strlit("=");
    let whole = s + "="@ + rest;
    if i < s.len() {
        assert(whole[i] == s[i]);
        lemma_equals_sign_after(s, rest, i + 1);
    } else {
        assert(whole[i] == '=');
    }
}

/// A time is written in the two largest of its units, and the parts of it add up to
/// it.
pub proof fn times_are_written_in_their_units(hours: nat, minutes: nat, seconds: nat)
    requires
        minutes < 60,
        seconds < 60,
    ensures
        ({
            let all = 3600 * hours + 60 * minutes + seconds;
            &&& hours > 0 ==> duration_text(all) == decimal(hours) + "h"@ + two_digits(minutes) + "m"@
            &&& hours == 0 && minutes > 0 ==> duration_text(all) == decimal(minutes) + "m"@
                + two_digits(seconds) + "s"@
            &&& hours == 0 && minutes == 0 ==> duration_text(all) == decimal(seconds) + "s"@
            &&& clock_text(all) == two_digits(hours) + ":"@ + two_digits(minutes) + ":"@
                + two_digits(seconds)
        }),
        two_digits(minutes).len() == 2,
        two_digits(seconds).len() == 2,
        hours < 100 ==> two_digits(hours).len() == 2,
{
    let all = 3600 * hours + 60 * minutes + seconds;
    let rest = 60 * minutes + seconds;
    assert(all / 3600 == hours && all % 3600 == rest) by (nonlinear_arith)
        requires
            all == 3600 * hours + rest,
            0 <= rest < 3600,
    ;
    assert(rest / 60 == minutes);
    assert(all / 60 == 60 * hours + minutes);
    assert((60 * hours + minutes) % 60 == minutes);
    assert(all % 60 == seconds);
    lemma_two_digits(minutes);
    lemma_two_digits(seconds);
    if hours < 100 {
        lemma_two_digits(hours);
    }
}

proof fn lemma_two_digits(n: nat)
    requires
        n < 100,
    ensures
        two_digits(n).len() == 2,
{
    reveal_strlit("0");
    reveal_with_fuel(decimal, 2);
}

/// A block is read whole or not at all: with its mark, of the size that it says, up
/// to a hundred mebibytes.
pub proof fn blocks_are_read_whole(b: Seq<u8>, at: int)
    requires
        0 <= at <= b.len(),
    ensures
        ({
            let r = chunk_at(b, at);
            &&& at == b.len() <==> r == Ok::<Option<Seq<u8>>, ChunkError>(None)
            &&& r matches Ok(Some(chunk)) ==> {
                &&& at + 8 + chunk.len() <= b.len()
                &&& b.subrange(at, at + 4) == seq![66u8, 73u8, 78u8, 80u8]
                &&& chunk.len() <= 100 * 1024 * 1024
                &&& chunk.len() == b[at + 4] + 256 * (b[at + 5] + 256 * (b[at + 6] + 256 * b[at
                    + 7]))
                &&& chunk == b.subrange(at + 8, at + 8 + chunk.len())
            }
            &&& r == Err::<Option<Seq<u8>>, ChunkError>(ChunkError::Header) ==> at + 8 <= b.len()
                && b.subrange(at, at + 4) != seq![66u8, 73u8, 78u8, 80u8]
            &&& r matches Err(ChunkError::Size(size)) ==> size > 100 * 1024 * 1024
        }),
{
    let mark = seq![66u8, 73u8, 78u8, 80u8];
    if at + 8 <= b.len() {
        let head = b.subrange(at, at + 4);
        assert(head.len() == 4 && head[0] == b[at] && head[1] == b[at + 1] && head[2] == b[at + 2]
            && head[3] == b[at + 3]);
        if head[0] == 66 && head[1] == 73 && head[2] == 78 && head[3] == 80 {
            assert(head =~= mark);
        }
        assert(mark[0] == 66u8 && mark[1] == 73u8 && mark[2] == 78u8 && mark[3] == 80u8);
    }
}

/// Games with different numbers have different seeds, and the first has the seed that
/// was given.
pub proof fn each_game_has_its_own_seed(seed: u64, a: u64, b: u64)
    ensures
        game_seed_of(seed, 0) == seed,
        game_seed_of(seed, a) == game_seed_of(seed, b) ==> a == b,
{
    let x = a.wrapping_mul(crate::rng::STEP);
    let y = b.wrapping_mul(crate::rng::STEP);
    assert(seed ^ 0 == seed && (seed ^ x == seed ^ y ==> x == y)) by (bit_vector);
    if x == y {
        let step = crate::rng::STEP as int;
        let whole = 0x1_0000_0000_0000_0000int;
        let back = 17428512612931826493int;
        let turns = 10771413168148108919int;
        assert(step * back == 1 + turns * whole);
        let p = a as int * step;
        let q = b as int * step;
        let d = a as int - b as int;
        let k = p / whole - q / whole;
        assert(p == whole * (p / whole) + p % whole);
        assert(q == whole * (q / whole) + q % whole);
        assert(d * step == p - q) by (nonlinear_arith)
            requires
                p == a as int * step,
                q == b as int * step,
                d == a as int - b as int,
        ;
        assert(p - q == whole * k) by (nonlinear_arith)
            requires
                p == whole * (p / whole) + p % whole,
                q == whole * (q / whole) + q % whole,
                p % whole == q % whole,
                k == p / whole - q / whole,
        ;
        let m = k * back - d * turns;
        assert(d == whole * m) by (nonlinear_arith)
            requires
                d * step == whole * k,
                step * back == 1 + turns * whole,
                m == k * back - d * turns,
        ;
        assert(d == 0) by (nonlinear_arith)
            requires
                d == whole * m,
                -whole < d < whole,
                whole > 0,
        ;
    }
}

proof fn lemma_part_end_before(a: Seq<char>, i: int)
    requires
        0 <= i <= a.len(),
    ensures
        part_end(a.push('/'), i) == part_end(a, i),
        i <= part_end(a, i) <= a.len(),
    decreases a.len() - i,
{
    let s = a.push('/');
    if i < a.len() {
        assert(s[i] == a[i]);
        if a[i] != '/' {
            lemma_part_end_before(a, i + 1);
        }
    } else {
        assert(s[i] == '/');
    }
}

proof fn lemma_parts_before(a: Seq<char>, i: int)
    requires
        0 <= i <= a.len(),
    ensures
        parts_from(a.push('/'), i) == parts_from(a, i),
    decreases a.len() - i,
{
    let s = a.push('/');
    if i == a.len() {
        assert(s[i] == '/');
        assert(parts_from(s, i + 1) =~= Seq::<Seq<char>>::empty());
    } else {
        assert(s[i] == a[i]);
        if a[i] == '/' {
            lemma_parts_before(a, i + 1);
        } else {
            let end = part_end(a, i);
            lemma_part_end_before(a, i);
            crate::options::lemma_part_end(a, i);
            lemma_parts_before(a, end);
            assert(s.subrange(i, end) =~= a.subrange(i, end));
        }
    }
}

/// A slash at the end of a path makes it no other path.
pub proof fn a_slash_at_the_end_makes_no_difference(path: Seq<char>)
    requires
        path.len() > 0,
    ensures
        same_path(path, path),
        same_path(path.push('/'), path),
{
    lemma_parts_before(path, 0);
}

} // verus!
