//! Self-play: games that the engine plays against itself, and the positions
//! that are kept of them.

use crate::bulk::{first_of, format_record, push_two_digits, record_of, two_digits};
use crate::chess::Position;
use crate::game::{outcome_text, Finished, GameResult, Outcome, Record, Termination};
use crate::options::{
    arguments, concat, count, count_option, parse_positive, parse_signed, positive_option,
    signed_option, value, value_at,
};
use crate::rng::{randomize_opening, randomized, SplitMix64, STEP};
use crate::rules::fen_position;
use crate::text::{
    decimal, join, joined, parse_unsigned, push_decimal, same_text, split_whitespace, texts,
    unsigned, words,
};
use vstd::prelude::*;
use vstd::string::StringExecFns;

verus! {

pub const DEFAULT_OUTPUT: &'static str = "datagen/selfplay.txt";

pub const DEFAULT_OPENINGS: &'static str =
    "materials/fastchess/books/UHO_Lichess_4852_v1_noob_4moves_dedup.epd";

pub const DEFAULT_NODES: u64 = 1_000;

pub const DEFAULT_HASH_MB: u64 = 4;

pub const DEFAULT_MAX_PLIES: usize = 400;

pub const DEFAULT_WARMUP_PLIES: usize = 8;

pub const DEFAULT_RANDOM_PLIES: usize = 2;

pub const DEFAULT_WIN_SCORE: i32 = 1_500;

pub const DEFAULT_WIN_PLIES: usize = 8;

pub const USAGE: &'static str = "\
Usage: chessbot selfplay --positions N [options]

Options:
  --output PATH         Bullet text output (default: datagen/selfplay.txt)
  --openings PATH       Opening EPD file (default: UHO + noob 4-move dedup)
  --positions N         Number of output positions (required)
  --nodes N             Search nodes per move (default: 1000)
  --threads N           Parallel games (default: available CPUs)
  --hash-mb N           Hash size per worker (default: 4)
  --max-plies N         Discard games unresolved after N plies (default: 400)
  --warmup-plies N      Do not emit the first N self-play plies (default: 8)
  --random-plies N      Quiet random opening moves for diversity (default: 2)
  --win-score N         Win adjudication threshold in centipawns (default: 1500)
  --win-plies N         Consecutive plies required for a win (default: 8)
  --seed N              Reproducible game seed (default: 12345)
  --overwrite           Replace existing output and partial files
  -h, --help            Show this help
";

/// The seed that is given as the argument at a place.
pub open spec fn seed_option(args: Seq<Option<Seq<char>>>, i: int) -> Result<u64, Seq<char>> {
    match value_at(args, i, "--seed"@) {
        Err(e) => Err(e),
        Ok(text) => match unsigned(text, u64::MAX as int) {
            Some(n) => Ok(n as u64),
            None => Err("invalid --seed"@),
        },
    }
}

fn parse_seed(args: &Vec<Option<String>>, i: usize) -> (r: Result<u64, String>)
    ensures
        crate::options::same_result(r, seed_option(arguments(args@), i as int)),
        r is Ok ==> i < args@.len(),
{
    match value(args, i, "--seed") {
        Err(e) => Err(e),
        Ok(text) => match parse_unsigned(text.as_str(), u64::MAX) {
            Some(n) => Ok(n),
            None => Err("invalid --seed".to_owned()),
        },
    }
}

/// What a run of self-play is told to do.
pub struct SelfplayConfig {
    pub output: String,
    pub openings: String,
    pub positions: u64,
    pub nodes: u64,
    pub threads: usize,
    pub hash_mb: u64,
    pub max_plies: usize,
    pub warmup_plies: usize,
    pub random_plies: usize,
    pub win_score: i32,
    pub win_plies: usize,
    pub seed: u64,
    pub overwrite: bool,
}

/// What a run of self-play is told to do. As a value.
#[verifier::ext_equal]
pub struct Selfplay {
    pub output: Seq<char>,
    pub openings: Seq<char>,
    pub positions: u64,
    pub nodes: u64,
    pub threads: usize,
    pub hash_mb: u64,
    pub max_plies: usize,
    pub warmup_plies: usize,
    pub random_plies: usize,
    pub win_score: i32,
    pub win_plies: usize,
    pub seed: u64,
    pub overwrite: bool,
}

impl View for SelfplayConfig {
    type V = Selfplay;

    open spec fn view(&self) -> Selfplay {
        Selfplay {
            output: self.output@,
            openings: self.openings@,
            positions: self.positions,
            nodes: self.nodes,
            threads: self.threads,
            hash_mb: self.hash_mb,
            max_plies: self.max_plies,
            warmup_plies: self.warmup_plies,
            random_plies: self.random_plies,
            win_score: self.win_score,
            win_plies: self.win_plies,
            seed: self.seed,
            overwrite: self.overwrite,
        }
    }
}

/// What holds without options, with as many threads as are given.
pub open spec fn default_selfplay(threads: usize) -> Selfplay {
    Selfplay {
        output: DEFAULT_OUTPUT@,
        openings: DEFAULT_OPENINGS@,
        positions: 0,
        nodes: DEFAULT_NODES,
        threads: threads,
        hash_mb: DEFAULT_HASH_MB,
        max_plies: DEFAULT_MAX_PLIES,
        warmup_plies: DEFAULT_WARMUP_PLIES,
        random_plies: DEFAULT_RANDOM_PLIES,
        win_score: DEFAULT_WIN_SCORE,
        win_plies: DEFAULT_WIN_PLIES,
        seed: 12_345,
        overwrite: false,
    }
}

/// What the arguments from a place on make of a configuration: nothing where
/// help is asked for.
pub open spec fn selfplay_from(args: Seq<Option<Seq<char>>>, i: int, c: Selfplay) -> Result<
    Option<Selfplay>,
    Seq<char>,
>
    decreases args.len() - i,
{
    if i < 0 || i >= args.len() {
        if c.positions == 0 {
            Err("--positions is required and must be positive\n\n"@ + USAGE@)
        } else {
            Ok(Some(c))
        }
    } else {
        match args[i] {
            None => Err("arguments must be valid UTF-8"@),
            Some(arg) => if arg == "-h"@ || arg == "--help"@ {
                Ok(None)
            } else if arg == "--output"@ {
                match value_at(args, i + 1, "--output"@) {
                    Err(e) => Err(e),
                    Ok(v) => selfplay_from(args, i + 2, Selfplay { output: v, ..c }),
                }
            } else if arg == "--openings"@ {
                match value_at(args, i + 1, "--openings"@) {
                    Err(e) => Err(e),
                    Ok(v) => selfplay_from(args, i + 2, Selfplay { openings: v, ..c }),
                }
            } else if arg == "--positions"@ {
                match positive_option(args, i + 1, "--positions"@, u64::MAX as int) {
                    Err(e) => Err(e),
                    Ok(v) => selfplay_from(args, i + 2, Selfplay { positions: v, ..c }),
                }
            } else if arg == "--nodes"@ {
                match positive_option(args, i + 1, "--nodes"@, u64::MAX as int) {
                    Err(e) => Err(e),
                    Ok(v) => selfplay_from(args, i + 2, Selfplay { nodes: v, ..c }),
                }
            } else if arg == "--threads"@ {
                match positive_option(args, i + 1, "--threads"@, usize::MAX as int) {
                    Err(e) => Err(e),
                    Ok(v) => selfplay_from(args, i + 2, Selfplay { threads: v as usize, ..c }),
                }
            } else if arg == "--hash-mb"@ {
                match positive_option(args, i + 1, "--hash-mb"@, u64::MAX as int) {
                    Err(e) => Err(e),
                    Ok(v) => selfplay_from(args, i + 2, Selfplay { hash_mb: v, ..c }),
                }
            } else if arg == "--max-plies"@ {
                match positive_option(args, i + 1, "--max-plies"@, usize::MAX as int) {
                    Err(e) => Err(e),
                    Ok(v) => selfplay_from(args, i + 2, Selfplay { max_plies: v as usize, ..c }),
                }
            } else if arg == "--warmup-plies"@ {
                match count_option(args, i + 1, "--warmup-plies"@, usize::MAX as int) {
                    Err(e) => Err(e),
                    Ok(v) => selfplay_from(args, i + 2, Selfplay { warmup_plies: v as usize, ..c }),
                }
            } else if arg == "--random-plies"@ {
                match count_option(args, i + 1, "--random-plies"@, usize::MAX as int) {
                    Err(e) => Err(e),
                    Ok(v) => selfplay_from(args, i + 2, Selfplay { random_plies: v as usize, ..c }),
                }
            } else if arg == "--win-score"@ {
                match signed_option(args, i + 1, "--win-score"@) {
                    Err(e) => Err(e),
                    Ok(v) => selfplay_from(args, i + 2, Selfplay { win_score: v, ..c }),
                }
            } else if arg == "--win-plies"@ {
                match positive_option(args, i + 1, "--win-plies"@, usize::MAX as int) {
                    Err(e) => Err(e),
                    Ok(v) => selfplay_from(args, i + 2, Selfplay { win_plies: v as usize, ..c }),
                }
            } else if arg == "--seed"@ {
                match seed_option(args, i + 1) {
                    Err(e) => Err(e),
                    Ok(v) => selfplay_from(args, i + 2, Selfplay { seed: v, ..c }),
                }
            } else if arg == "--overwrite"@ {
                selfplay_from(args, i + 1, Selfplay { overwrite: true, ..c })
            } else {
                Err("unknown option: "@ + arg + "\n\n"@ + USAGE@)
            },
        }
    }
}

/// Reads the options of a command line. Nothing comes back where help is asked
/// for.
pub fn parse_args(args: &Vec<Option<String>>, threads: usize) -> (r: Result<
    Option<SelfplayConfig>,
    String,
>)
    ensures
        match (r, selfplay_from(arguments(args@), 0, default_selfplay(threads))) {
            (Ok(Some(a)), Ok(Some(b))) => a@ == b,
            (Ok(None), Ok(None)) => true,
            (Err(a), Err(b)) => a@ == b,
            _ => false,
        },
        r matches Ok(Some(config)) ==> config.positions > 0,
{
    let ghost all = arguments(args@);
    let mut config = SelfplayConfig {
        output: DEFAULT_OUTPUT.to_owned(),
        openings: DEFAULT_OPENINGS.to_owned(),
        positions: 0,
        nodes: DEFAULT_NODES,
        threads: threads,
        hash_mb: DEFAULT_HASH_MB,
        max_plies: DEFAULT_MAX_PLIES,
        warmup_plies: DEFAULT_WARMUP_PLIES,
        random_plies: DEFAULT_RANDOM_PLIES,
        win_score: DEFAULT_WIN_SCORE,
        win_plies: DEFAULT_WIN_PLIES,
        seed: 12_345,
        overwrite: false,
    };
    assert(config@ =~= default_selfplay(threads));
    let ghost goal = selfplay_from(all, 0, default_selfplay(threads));
    let mut i: usize = 0;
    while i < args.len()
        invariant
            i <= args@.len(),
            all == arguments(args@),
            goal == selfplay_from(all, 0, default_selfplay(threads)),
            goal == selfplay_from(all, i as int, config@),
        decreases args@.len() - i,
    {
        let arg: &str = match &args[i] {
            Some(text) => text.as_str(),
            None => {
                return Err("arguments must be valid UTF-8".to_owned());
            },
        };
        assert(all[i as int] == Some(arg@));
        if same_text(arg, "-h") || same_text(arg, "--help") {
            return Ok(None);
        } else if same_text(arg, "--output") {
            match value(args, i + 1, "--output") {
                Err(e) => {
                    return Err(e);
                },
                Ok(v) => {
                    config.output = v;
                },
            }
            i = i + 2;
        } else if same_text(arg, "--openings") {
            match value(args, i + 1, "--openings") {
                Err(e) => {
                    return Err(e);
                },
                Ok(v) => {
                    config.openings = v;
                },
            }
            i = i + 2;
        } else if same_text(arg, "--positions") {
            match parse_positive(args, i + 1, "--positions", u64::MAX) {
                Err(e) => {
                    return Err(e);
                },
                Ok(v) => {
                    config.positions = v;
                },
            }
            i = i + 2;
        } else if same_text(arg, "--nodes") {
            match parse_positive(args, i + 1, "--nodes", u64::MAX) {
                Err(e) => {
                    return Err(e);
                },
                Ok(v) => {
                    config.nodes = v;
                },
            }
            i = i + 2;
        } else if same_text(arg, "--threads") {
            match parse_positive(args, i + 1, "--threads", usize::MAX as u64) {
                Err(e) => {
                    return Err(e);
                },
                Ok(v) => {
                    config.threads = v as usize;
                },
            }
            i = i + 2;
        } else if same_text(arg, "--hash-mb") {
            match parse_positive(args, i + 1, "--hash-mb", u64::MAX) {
                Err(e) => {
                    return Err(e);
                },
                Ok(v) => {
                    config.hash_mb = v;
                },
            }
            i = i + 2;
        } else if same_text(arg, "--max-plies") {
            match parse_positive(args, i + 1, "--max-plies", usize::MAX as u64) {
                Err(e) => {
                    return Err(e);
                },
                Ok(v) => {
                    config.max_plies = v as usize;
                },
            }
            i = i + 2;
        } else if same_text(arg, "--warmup-plies") {
            match count(args, i + 1, "--warmup-plies", usize::MAX as u64) {
                Err(e) => {
                    return Err(e);
                },
                Ok(v) => {
                    config.warmup_plies = v as usize;
                },
            }
            i = i + 2;
        } else if same_text(arg, "--random-plies") {
            match count(args, i + 1, "--random-plies", usize::MAX as u64) {
                Err(e) => {
                    return Err(e);
                },
                Ok(v) => {
                    config.random_plies = v as usize;
                },
            }
            i = i + 2;
        } else if same_text(arg, "--win-score") {
            match parse_signed(args, i + 1, "--win-score") {
                Err(e) => {
                    return Err(e);
                },
                Ok(v) => {
                    config.win_score = v;
                },
            }
            i = i + 2;
        } else if same_text(arg, "--win-plies") {
            match parse_positive(args, i + 1, "--win-plies", usize::MAX as u64) {
                Err(e) => {
                    return Err(e);
                },
                Ok(v) => {
                    config.win_plies = v as usize;
                },
            }
            i = i + 2;
        } else if same_text(arg, "--seed") {
            match parse_seed(args, i + 1) {
                Err(e) => {
                    return Err(e);
                },
                Ok(v) => {
                    config.seed = v;
                },
            }
            i = i + 2;
        } else if same_text(arg, "--overwrite") {
            config.overwrite = true;
            i = i + 1;
        } else {
            let head: String = concat("unknown option: ", arg);
            let middle: String = concat(head.as_str(), "\n\n");
            return Err(concat(middle.as_str(), USAGE));
        }
    }
    if config.positions == 0 {
        return Err(concat("--positions is required and must be positive\n\n", USAGE));
    }
    Ok(Some(config))
}

/// The position of a line of an opening book: the first four words are those
/// of a FEN.
pub open spec fn opening_of(line: Seq<char>) -> Option<Position> {
    let fields = words(line);
    if fields.len() < 4 {
        None
    } else {
        fen_position(joined(fields.take(4)) + " 0 1"@, false)
    }
}

/// The position of a line of an opening book.
pub fn parse_opening(line: &str) -> (r: Option<Position>)
    ensures
        r == opening_of(line@),
        r matches Some(board) ==> board.valid(),
{
    let fields: Vec<String> = split_whitespace(line);
    assert(texts(fields@).len() == fields@.len());
    if fields.len() < 4 {
        return None;
    }
    let fen: String = concat(join(&fields, 0, 4).as_str(), " 0 1");
    assert(texts(fields@).subrange(0, 4) =~= texts(fields@).take(4));
    Position::from_fen(fen.as_str(), false)
}

/// The positions of those lines of an opening book that have one.
pub open spec fn openings_of(lines: Seq<Seq<char>>) -> Seq<Position>
    decreases lines.len(),
{
    if lines.len() == 0 {
        Seq::empty()
    } else {
        let before = openings_of(lines.drop_last());
        match opening_of(lines.last()) {
            Some(board) => before.push(board),
            None => before,
        }
    }
}

/// Reads the lines of an opening book. Those that hold no position are left
/// out, but there must be one.
pub fn load_openings(path: &str, lines: &Vec<String>) -> (r: Result<Vec<Position>, String>)
    ensures
        match r {
            Ok(openings) => {
                &&& openings@ == openings_of(texts(lines@))
                &&& openings@.len() > 0
                &&& forall|i: int| 0 <= i < openings@.len() ==> (#[trigger] openings@[i]).valid()
            },
            Err(e) => openings_of(texts(lines@)).len() == 0 && e@
                == "opening file contained no valid positions: "@ + path@,
        },
{
    let ghost all = texts(lines@);
    let mut openings: Vec<Position> = Vec::new();
    let mut i: usize = 0;
    assert(all.take(0) =~= Seq::<Seq<char>>::empty());
    while i < lines.len()
        invariant
            i <= lines@.len(),
            all == texts(lines@),
            openings@ == openings_of(all.take(i as int)),
            forall|j: int| 0 <= j < openings@.len() ==> (#[trigger] openings@[j]).valid(),
        decreases lines@.len() - i,
    {
        proof {
            assert(all.take(i + 1).drop_last() =~= all.take(i as int));
            assert(all.take(i + 1).last() == lines@[i as int]@);
        }
        if let Some(board) = parse_opening(lines[i].as_str()) {
            openings.push(board);
        }
        i = i + 1;
    }
    assert(all.take(i as int) =~= all);
    if openings.len() == 0 {
        return Err(concat("opening file contained no valid positions: ", path));
    }
    Ok(openings)
}

/// Where the generator of a game starts.
pub open spec fn game_seed_of(seed: u64, game_id: u64) -> u64 {
    seed ^ game_id.wrapping_mul(STEP)
}

/// The position from which a game starts: the openings are taken in turn, and
/// some quiet moves are played that the seed and the game determine.
pub fn choose_opening(
    openings: &Vec<Position>,
    seed: u64,
    random_plies: usize,
    game_id: u64,
) -> (r: Position)
    requires
        openings@.len() > 0,
        forall|i: int| 0 <= i < openings@.len() ==> (#[trigger] openings@[i]).valid(),
    ensures
        r.valid(),
        r == randomized(
            openings@[game_id as int % openings@.len() as int],
            game_seed_of(seed, game_id),
            random_plies as nat,
        ).0,
{
    let mut rng: SplitMix64 = SplitMix64::new(seed ^ game_id.wrapping_mul(STEP));
    let index: usize = (game_id % openings.len() as u64) as usize;
    let mut board: Position = openings[index];
    randomize_opening(&mut board, random_plies, &mut rng);
    board
}

/// What is said of a search that did not even complete depth one.
pub fn search_failure(worker: usize) -> (r: String)
    ensures
        r@ == "worker "@ + decimal(worker as nat) + " could not complete a depth-one search"@,
{
    let mut out: String = "worker ".to_owned();
    push_decimal(&mut out, worker as u64);
    out.append(" could not complete a depth-one search");
    out
}

/// Counts over the games of a run. They go on from zero when they overflow.
#[derive(Clone, Copy, Debug, PartialEq, Eq, Structural)]
pub struct Tally {
    pub games: u64,
    pub plies: u64,
    pub candidates: u64,
    pub white_wins: u64,
    pub draws: u64,
    pub black_wins: u64,
    pub checkmates: u64,
    pub rules_draws: u64,
    pub repetitions: u64,
    pub max_plies: u64,
    pub score_adjudications: u64,
}

/// A count with one more where it is its turn.
pub open spec fn counted(n: u64, more: bool) -> u64 {
    if more {
        n.wrapping_add(1)
    } else {
        n
    }
}

/// The counts with one game more.
pub open spec fn tallied(t: Tally, game: Finished) -> Tally {
    Tally {
        games: t.games.wrapping_add(1),
        plies: t.plies.wrapping_add(game.plies as u64),
        candidates: t.candidates.wrapping_add(game.records.len() as u64),
        white_wins: counted(t.white_wins, game.outcome == Outcome::WhiteWin),
        draws: counted(t.draws, game.outcome == Outcome::Draw),
        black_wins: counted(t.black_wins, game.outcome == Outcome::BlackWin),
        checkmates: counted(t.checkmates, game.termination == Termination::Checkmate),
        rules_draws: counted(t.rules_draws, game.termination == Termination::RulesDraw),
        repetitions: counted(t.repetitions, game.termination == Termination::Repetition),
        max_plies: counted(t.max_plies, game.termination == Termination::MaxPlies),
        score_adjudications: counted(
            t.score_adjudications,
            game.termination == Termination::ScoreAdjudication,
        ),
    }
}

/// Whether every game is counted once among the outcomes and once among the
/// reasons to end.
pub open spec fn balanced(t: Tally) -> bool {
    &&& t.games == t.white_wins + t.draws + t.black_wins
    &&& t.games == t.checkmates + t.rules_draws + t.repetitions + t.max_plies
        + t.score_adjudications
}

/// The counts stay balanced.
pub proof fn each_game_is_counted_once(t: Tally, game: Finished)
    requires
        balanced(t),
        t.games < u64::MAX,
    ensures
        balanced(tallied(t, game)),
{
}

impl Tally {
    pub fn new() -> (r: Tally)
        ensures
            r == (Tally {
                games: 0,
                plies: 0,
                candidates: 0,
                white_wins: 0,
                draws: 0,
                black_wins: 0,
                checkmates: 0,
                rules_draws: 0,
                repetitions: 0,
                max_plies: 0,
                score_adjudications: 0,
            }),
            balanced(r),
    {
        Tally {
            games: 0,
            plies: 0,
            candidates: 0,
            white_wins: 0,
            draws: 0,
            black_wins: 0,
            checkmates: 0,
            rules_draws: 0,
            repetitions: 0,
            max_plies: 0,
            score_adjudications: 0,
        }
    }

    /// Counts a game.
    pub fn count_game(&mut self, game: &GameResult)
        ensures
            *final(self) == tallied(*old(self), game@),
    {
        self.games = self.games.wrapping_add(1);
        self.plies = self.plies.wrapping_add(game.plies as u64);
        self.candidates = self.candidates.wrapping_add(game.positions.len() as u64);
        match game.outcome {
            Outcome::WhiteWin => {
                self.white_wins = self.white_wins.wrapping_add(1);
            },
            Outcome::Draw => {
                self.draws = self.draws.wrapping_add(1);
            },
            Outcome::BlackWin => {
                self.black_wins = self.black_wins.wrapping_add(1);
            },
        }
        match game.termination {
            Termination::Checkmate => {
                self.checkmates = self.checkmates.wrapping_add(1);
            },
            Termination::RulesDraw => {
                self.rules_draws = self.rules_draws.wrapping_add(1);
            },
            Termination::Repetition => {
                self.repetitions = self.repetitions.wrapping_add(1);
            },
            Termination::MaxPlies => {
                self.max_plies = self.max_plies.wrapping_add(1);
            },
            Termination::ScoreAdjudication => {
                self.score_adjudications = self.score_adjudications.wrapping_add(1);
            },
        }
    }
}

/// What the workers tell the collector.
pub enum Event {
    Game(GameResult),
    Error(String),
    WorkerDone,
}

/// What the collector does about it.
pub struct Reaction {
    pub lines: Vec<String>,
    pub progress: bool,
    pub cancel: bool,
}

/// The collector of the positions that are kept.
pub struct Collector {
    pub positions: u64,
    pub threads: usize,
    pub written: u64,
    pub workers_done: usize,
    pub first_error: Option<String>,
}

/// The lines of the output for the first positions of a game.
pub open spec fn lines_of(game: Finished, n: nat) -> Seq<Seq<char>> {
    Seq::new(
        n,
        |i: int|
            record_of(
                game.records[i].fen,
                game.records[i].white_score,
                outcome_text(game.outcome),
            ),
    )
}

/// How many positions of a game are written: those that are still wanted.
pub open spec fn wanted(game: Finished, remaining: int) -> int {
    if game.records.len() <= remaining {
        game.records.len() as int
    } else {
        remaining
    }
}

/// What a collector is after an event.
pub open spec fn collected(c: Collector, event: Event) -> Collector {
    match event {
        Event::Game(game) => Collector {
            written: (c.written + wanted(game@, c.positions - c.written)) as u64,
            ..c
        },
        Event::Error(error) => Collector { first_error: first_of(c.first_error, error), ..c },
        Event::WorkerDone => Collector { workers_done: (c.workers_done + 1) as usize, ..c },
    }
}

impl Collector {
    /// No more is written than is asked for.
    pub open spec fn wf(self) -> bool {
        self.written <= self.positions
    }

    pub fn new(positions: u64, threads: usize) -> (r: Collector)
        ensures
            r.wf(),
            r.positions == positions,
            r.threads == threads,
            r.written == 0,
            r.workers_done == 0,
            r.first_error is None,
    {
        Collector { positions, threads, written: 0, workers_done: 0, first_error: None }
    }

    /// Whether a worker is not done.
    pub fn is_running(&self) -> (r: bool)
        ensures
            r == (self.workers_done < self.threads),
    {
        self.workers_done < self.threads
    }

    fn take_game(&mut self, game: GameResult) -> (r: Reaction)
        requires
            old(self).wf(),
        ensures
            ({
                let n = wanted(game@, old(self).positions - old(self).written);
                &&& *final(self) == (Collector {
                    written: (old(self).written + n) as u64,
                    ..*old(self)
                })
                &&& final(self).wf()
                &&& texts(r.lines@) == lines_of(game@, n as nat)
                &&& r.cancel == (final(self).written == old(self).positions)
                &&& r.progress == (final(self).written as int % 1000 == 0 || final(self).written
                    == old(self).positions)
            }),
    {
        let ghost f = game@;
        let mut lines: Vec<String> = Vec::new();
        let mut i: usize = 0;
        let result: &'static str = game.outcome.text();
        assert(texts(lines@) =~= lines_of(f, 0));
        while i < game.positions.len() && self.written < self.positions
            invariant
                i <= game.positions@.len(),
                f == game@,
                result@ == outcome_text(f.outcome),
                old(self).wf(),
                self.wf(),
                self.written == old(self).written + i,
                *self == (Collector { written: self.written, ..*old(self) }),
                texts(lines@) == lines_of(f, i as nat),
            decreases game.positions@.len() - i,
        {
            let line: String = format_record(
                game.positions[i].fen.as_str(),
                game.positions[i].white_score,
                result,
            );
            let ghost before = lines@;
            let ghost l = line@;
            lines.push(line);
            self.written = self.written + 1;
            proof {
                assert(f.records[i as int] == (Record {
                    fen: game.positions@[i as int].fen@,
                    white_score: game.positions@[i as int].white_score as int,
                }));
                assert(texts(lines@) =~= texts(before).push(l));
                assert(texts(lines@) =~= lines_of(f, (i + 1) as nat));
            }
            i = i + 1;
        }
        let full: bool = self.written == self.positions;
        Reaction { lines, progress: self.written % 1000 == 0 || full, cancel: full }
    }

    /// Takes an event. The positions of a game are written and counted, as far
    /// as they are still wanted; the last one that is wanted and an error
    /// cancel the run.
    pub fn take(&mut self, event: Event) -> (r: Reaction)
        requires
            old(self).wf(),
            old(self).workers_done < usize::MAX,
        ensures
            final(self).wf(),
            *final(self) == collected(*old(self), event),
            match event {
                Event::Game(game) => {
                    let n = wanted(game@, old(self).positions - old(self).written);
                    &&& *final(self) == (Collector {
                        written: (old(self).written + n) as u64,
                        ..*old(self)
                    })
                    &&& texts(r.lines@) == lines_of(game@, n as nat)
                    &&& r.cancel == (final(self).written == old(self).positions)
                    &&& r.progress == (final(self).written as int % 1000 == 0
                        || final(self).written == old(self).positions)
                },
                Event::Error(error) => {
                    &&& *final(self) == (Collector {
                        first_error: first_of(old(self).first_error, error),
                        ..*old(self)
                    })
                    &&& r.lines@.len() == 0 && !r.progress && r.cancel
                },
                Event::WorkerDone => {
                    &&& *final(self) == (Collector {
                        workers_done: (old(self).workers_done + 1) as usize,
                        ..*old(self)
                    })
                    &&& r.lines@.len() == 0 && !r.progress && !r.cancel
                },
            },
    {
        match event {
            Event::Game(game) => self.take_game(game),
            Event::Error(error) => {
                if self.first_error.is_none() {
                    self.first_error = Some(error);
                }
                Reaction { lines: Vec::new(), progress: false, cancel: true }
            },
            Event::WorkerDone => {
                self.workers_done = self.workers_done + 1;
                Reaction { lines: Vec::new(), progress: false, cancel: false }
            },
        }
    }

    /// How many positions were written, if they are all and nothing failed.
    pub fn finish(self) -> (r: Result<u64, String>)
        ensures
            match self.first_error {
                Some(error) => r == Err::<u64, String>(error),
                None => match r {
                    Ok(n) => n == self.written == self.positions,
                    Err(e) => self.written != self.positions && e@ == "expected "@ + decimal(
                        self.positions as nat,
                    ) + " positions but wrote "@ + decimal(self.written as nat),
                },
            },
    {
        if let Some(error) = self.first_error {
            return Err(error);
        }
        if self.written != self.positions {
            let mut error: String = "expected ".to_owned();
            push_decimal(&mut error, self.positions);
            error.append(" positions but wrote ");
            push_decimal(&mut error, self.written);
            return Err(error);
        }
        Ok(self.written)
    }
}

/// A time in hours, minutes and seconds.
pub open spec fn clock_text(seconds: nat) -> Seq<char> {
    two_digits(seconds / 3600) + ":"@ + two_digits(seconds / 60 % 60) + ":"@ + two_digits(
        seconds % 60,
    )
}

/// A time in hours, minutes and seconds.
pub fn format_clock(seconds: u64) -> (r: String)
    ensures
        r@ == clock_text(seconds as nat),
{
    let mut out: String = String::new();
    push_two_digits(&mut out, seconds / 3600);
    out.append(":");
    push_two_digits(&mut out, seconds / 60 % 60);
    out.append(":");
    push_two_digits(&mut out, seconds % 60);
    assert(out@ =~= clock_text(seconds as nat));
    out
}

} // verus!
