//! Bulk evaluation: positions of an archive, scored by short searches.

use crate::chess::{Color, Move, Position};
use crate::engine::Engine;
use crate::history::clamped;
use crate::model::{Memory, Place, MAX_SCORE};
use crate::options::{
    arguments, concat, parse_positive, paths_equal, positive_option, same_path, value, value_at,
};
use crate::probe::{
    as_found, completes, completes_one, flag_is_set, probe, probed, root, some_search, two_searches,
    Probe,
};
use crate::rules::{can_move, fen_position};
use crate::text::{decimal, push_decimal, push_signed, same_text, signed_decimal};
use std::sync::atomic::AtomicBool;
use std::sync::Arc;
use vstd::prelude::*;
use vstd::string::StringExecFns;

verus! {

pub const DEFAULT_INPUT: &'static str = "datagen/positions.tar.zst";

pub const DEFAULT_OUTPUT: &'static str = "datagen/positions.txt";

pub const DEFAULT_NODES: u64 = 10_000;

pub const DEFAULT_HASH_MB: u64 = 4;

/// No score that is written is further from zero.
pub const MAX_BULLET_SCORE: i32 = 30_000;

/// How large a chunk may be.
pub const MAX_CHUNK: usize = 104_857_600;

pub const USAGE: &'static str = "\
Usage: chessbot bulk-eval --positions N [options]

Options:
  --input PATH         Input zstd/gzip/tar archive (default: datagen/positions.tar.zst)
  --output PATH        Bullet text output (default: datagen/positions.txt)
  --positions N        Number of output positions to evaluate (required)
  --nodes N            Search nodes per position (default: 10000)
  --threads N          Evaluation threads (default: available CPUs)
  --hash-mb N          Hash size per worker (default: 4)
  --include-tactical   Do not filter checks, captures, early plies, or extreme scores
  --overwrite          Replace existing output and partial files
  -h, --help           Show this help
";

/// What a run of bulk evaluation is told to do.
pub struct BulkConfig {
    pub input: String,
    pub output: String,
    pub positions: u64,
    pub nodes: u64,
    pub threads: usize,
    pub hash_mb: u64,
    pub include_tactical: bool,
    pub overwrite: bool,
}

/// What a run of bulk evaluation is told to do. As a value.
#[verifier::ext_equal]
pub struct Bulk {
    pub input: Seq<char>,
    pub output: Seq<char>,
    pub positions: u64,
    pub nodes: u64,
    pub threads: usize,
    pub hash_mb: u64,
    pub include_tactical: bool,
    pub overwrite: bool,
}

impl View for BulkConfig {
    type V = Bulk;

    open spec fn view(&self) -> Bulk {
        Bulk {
            input: self.input@,
            output: self.output@,
            positions: self.positions,
            nodes: self.nodes,
            threads: self.threads,
            hash_mb: self.hash_mb,
            include_tactical: self.include_tactical,
            overwrite: self.overwrite,
        }
    }
}

/// What holds without options, with as many threads as are given.
pub open spec fn default_bulk(threads: usize) -> Bulk {
    Bulk {
        input: DEFAULT_INPUT@,
        output: DEFAULT_OUTPUT@,
        positions: 0,
        nodes: DEFAULT_NODES,
        threads: threads,
        hash_mb: DEFAULT_HASH_MB,
        include_tactical: false,
        overwrite: false,
    }
}

/// What the arguments from a place on make of a configuration: nothing where
/// help is asked for.
pub open spec fn bulk_from(args: Seq<Option<Seq<char>>>, i: int, c: Bulk) -> Result<
    Option<Bulk>,
    Seq<char>,
>
    decreases args.len() - i,
{
    if i < 0 || i >= args.len() {
        if c.positions == 0 {
            Err("--positions is required and must be positive\n\n"@ + USAGE@)
        } else if same_path(c.input, c.output) {
            Err("input and output paths must differ"@)
        } else {
            Ok(Some(c))
        }
    } else {
        match args[i] {
            None => Err("arguments must be valid UTF-8"@),
            Some(arg) => if arg == "-h"@ || arg == "--help"@ {
                Ok(None)
            } else if arg == "--input"@ {
                match value_at(args, i + 1, "--input"@) {
                    Err(e) => Err(e),
                    Ok(v) => bulk_from(args, i + 2, Bulk { input: v, ..c }),
                }
            } else if arg == "--output"@ {
                match value_at(args, i + 1, "--output"@) {
                    Err(e) => Err(e),
                    Ok(v) => bulk_from(args, i + 2, Bulk { output: v, ..c }),
                }
            } else if arg == "--positions"@ {
                match positive_option(args, i + 1, "--positions"@, u64::MAX as int) {
                    Err(e) => Err(e),
                    Ok(v) => bulk_from(args, i + 2, Bulk { positions: v, ..c }),
                }
            } else if arg == "--nodes"@ {
                match positive_option(args, i + 1, "--nodes"@, u64::MAX as int) {
                    Err(e) => Err(e),
                    Ok(v) => bulk_from(args, i + 2, Bulk { nodes: v, ..c }),
                }
            } else if arg == "--threads"@ {
                match positive_option(args, i + 1, "--threads"@, usize::MAX as int) {
                    Err(e) => Err(e),
                    Ok(v) => bulk_from(args, i + 2, Bulk { threads: v as usize, ..c }),
                }
            } else if arg == "--hash-mb"@ {
                match positive_option(args, i + 1, "--hash-mb"@, u64::MAX as int) {
                    Err(e) => Err(e),
                    Ok(v) => bulk_from(args, i + 2, Bulk { hash_mb: v, ..c }),
                }
            } else if arg == "--include-tactical"@ {
                bulk_from(args, i + 1, Bulk { include_tactical: true, ..c })
            } else if arg == "--overwrite"@ {
                bulk_from(args, i + 1, Bulk { overwrite: true, ..c })
            } else {
                Err("unknown option: "@ + arg + "\n\n"@ + USAGE@)
            },
        }
    }
}

/// Reads the options of a command line. Nothing comes back where help is asked
/// for.
pub fn parse_args(args: &Vec<Option<String>>, threads: usize) -> (r: Result<
    Option<BulkConfig>,
    String,
>)
    ensures
        match (r, bulk_from(arguments(args@), 0, default_bulk(threads))) {
            (Ok(Some(a)), Ok(Some(b))) => a@ == b,
            (Ok(None), Ok(None)) => true,
            (Err(a), Err(b)) => a@ == b,
            _ => false,
        },
        r matches Ok(Some(config)) ==> config.positions > 0,
{
    let ghost all = arguments(args@);
    let mut config = BulkConfig {
        input: DEFAULT_INPUT.to_owned(),
        output: DEFAULT_OUTPUT.to_owned(),
        positions: 0,
        nodes: DEFAULT_NODES,
        threads: threads,
        hash_mb: DEFAULT_HASH_MB,
        include_tactical: false,
        overwrite: false,
    };
    assert(config@ =~= default_bulk(threads));
    let ghost goal = bulk_from(all, 0, default_bulk(threads));
    let mut i: usize = 0;
    while i < args.len()
        invariant
            i <= args@.len(),
            all == arguments(args@),
            goal == bulk_from(all, 0, default_bulk(threads)),
            goal == bulk_from(all, i as int, config@),
        decreases args@.len() - i,
    {
        let arg: &str = match &args[i] {
            Some(text) => text.as_str(),
            None => {
                return Err("arguments must be valid UTF-8".to_owned());
            },
        };
        assert(all[i as int] == Some(arg@));
        if same_text(arg, "-h") || same_text(arg, "--help") {
            return Ok(None);
        } else if same_text(arg, "--input") {
            match value(args, i + 1, "--input") {
                Err(e) => {
                    return Err(e);
                },
                Ok(v) => {
                    config.input = v;
                },
            }
            i = i + 2;
        } else if same_text(arg, "--output") {
            match value(args, i + 1, "--output") {
                Err(e) => {
                    return Err(e);
                },
                Ok(v) => {
                    config.output = v;
                },
            }
            i = i + 2;
        } else if same_text(arg, "--positions") {
            match parse_positive(args, i + 1, "--positions", u64::MAX) {
                Err(e) => {
                    return Err(e);
                },
                Ok(v) => {
                    config.positions = v;
                },
            }
            i = i + 2;
        } else if same_text(arg, "--nodes") {
            match parse_positive(args, i + 1, "--nodes", u64::MAX) {
                Err(e) => {
                    return Err(e);
                },
                Ok(v) => {
                    config.nodes = v;
                },
            }
            i = i + 2;
        } else if same_text(arg, "--threads") {
            match parse_positive(args, i + 1, "--threads", usize::MAX as u64) {
                Err(e) => {
                    return Err(e);
                },
                Ok(v) => {
                    config.threads = v as usize;
                },
            }
            i = i + 2;
        } else if same_text(arg, "--hash-mb") {
            match parse_positive(args, i + 1, "--hash-mb", u64::MAX) {
                Err(e) => {
                    return Err(e);
                },
                Ok(v) => {
                    config.hash_mb = v;
                },
            }
            i = i + 2;
        } else if same_text(arg, "--include-tactical") {
            config.include_tactical = true;
            i = i + 1;
        } else if same_text(arg, "--overwrite") {
            config.overwrite = true;
            i = i + 1;
        } else {
            let head: String = concat("unknown option: ", arg);
            let middle: String = concat(head.as_str(), "\n\n");
            return Err(concat(middle.as_str(), USAGE));
        }
    }
    if config.positions == 0 {
        return Err(concat("--positions is required and must be positive\n\n", USAGE));
    }
    if paths_equal(config.input.as_str(), config.output.as_str()) {
        return Err("input and output paths must differ".to_owned());
    }
    Ok(Some(config))
}

/// A score for White, held within what is written.
pub open spec fn white_score_of(score: int, white_to_move: bool) -> int {
    clamped(
        if white_to_move {
            score
        } else {
            -score
        },
        -MAX_BULLET_SCORE as int,
        MAX_BULLET_SCORE as int,
    )
}

/// A score for White, held within what is written.
pub fn white_score(side_to_move_score: i32, white_to_move: bool) -> (r: i32)
    ensures
        r == white_score_of(side_to_move_score as int, white_to_move),
{
    let score: i64 = if white_to_move {
        side_to_move_score as i64
    } else {
        -(side_to_move_score as i64)
    };
    if score < -(MAX_BULLET_SCORE as i64) {
        -MAX_BULLET_SCORE
    } else if score > MAX_BULLET_SCORE as i64 {
        MAX_BULLET_SCORE
    } else {
        score as i32
    }
}

/// How a game ended for White, as it is written.
pub open spec fn white_result_of(result: int, white_to_move: bool) -> Result<Seq<char>, Seq<char>> {
    let white = if white_to_move {
        result
    } else {
        -result
    };
    if white == 1 {
        Ok("1.0"@)
    } else if white == 0 {
        Ok("0.5"@)
    } else if white == -1 {
        Ok("0.0"@)
    } else {
        Err("invalid binpack game result: "@ + signed_decimal(result))
    }
}

/// How a game ended for White, as it is written.
pub fn white_result(side_to_move_result: i16, white_to_move: bool) -> (r: Result<String, String>)
    ensures
        match (r, white_result_of(side_to_move_result as int, white_to_move)) {
            (Ok(a), Ok(b)) => a@ == b,
            (Err(a), Err(b)) => a@ == b,
            _ => false,
        },
{
    let white: i32 = if white_to_move {
        side_to_move_result as i32
    } else {
        -(side_to_move_result as i32)
    };
    if white == 1 {
        Ok("1.0".to_owned())
    } else if white == 0 {
        Ok("0.5".to_owned())
    } else if white == -1 {
        Ok("0.0".to_owned())
    } else {
        let mut error: String = "invalid binpack game result: ".to_owned();
        push_signed(&mut error, side_to_move_result as i64);
        Err(error)
    }
}

/// A line of the output: a position, its score for White, and the result.
pub open spec fn record_of(fen: Seq<char>, score: int, result: Seq<char>) -> Seq<char> {
    fen + " | "@ + signed_decimal(score) + " | "@ + result
}

/// A line of the output.
pub fn format_record(fen: &str, score: i32, result: &str) -> (r: String)
    ensures
        r@ == record_of(fen@, score as int, result@),
{
    let mut out: String = fen.to_owned();
    out.append(" | ");
    push_signed(&mut out, score as i64);
    out.append(" | ");
    out.append(result);
    out
}

/// Why bytes are no chunk.
#[derive(Clone, Copy, Debug, PartialEq, Eq, Structural)]
pub enum ChunkError {
    Truncated,
    Header,
    Size(u32),
}

/// The number that four bytes hold, the low one first.
pub open spec fn little_endian_32(b: Seq<u8>, at: int) -> int {
    b[at] + 256 * b[at + 1] + 65_536 * b[at + 2] + 16_777_216 * b[at + 3]
}

/// The size of the chunk that a header of eight bytes announces.
pub open spec fn announced(b: Seq<u8>, at: int) -> Result<int, ChunkError> {
    let size = little_endian_32(b, at + 4);
    if !(b[at] == 66 && b[at + 1] == 73 && b[at + 2] == 78 && b[at + 3] == 80) {
        Err(ChunkError::Header)
    } else if size > MAX_CHUNK {
        Err(ChunkError::Size(size as u32))
    } else {
        Ok(size)
    }
}

/// The size of the chunk that a header of eight bytes announces: `BINP` and
/// the size.
pub fn chunk_size(data: &[u8], at: usize) -> (r: Result<usize, ChunkError>)
    requires
        at + 8 <= data@.len(),
    ensures
        match (r, announced(data@, at as int)) {
            (Ok(a), Ok(b)) => a == b && a <= MAX_CHUNK,
            (Err(a), Err(b)) => a == b,
            _ => false,
        },
{
    let len: usize = data.len();
    if !(data[at] == 66 && data[at + 1] == 73 && data[at + 2] == 78 && data[at + 3] == 80) {
        return Err(ChunkError::Header);
    }
    let size: u64 = data[at + 4] as u64 + 256 * data[at + 5] as u64 + 65_536 * data[at + 6] as u64
        + 16_777_216 * data[at + 7] as u64;
    if size > MAX_CHUNK as u64 {
        return Err(ChunkError::Size(size as u32));
    }
    Ok(size as usize)
}

/// The chunk that starts at a place: nothing at the end of the data.
pub open spec fn chunk_at(b: Seq<u8>, at: int) -> Result<Option<Seq<u8>>, ChunkError> {
    if at == b.len() {
        Ok(None)
    } else if at + 8 > b.len() {
        Err(ChunkError::Truncated)
    } else {
        match announced(b, at) {
            Err(e) => Err(e),
            Ok(size) => if at + 8 + size > b.len() {
                Err(ChunkError::Truncated)
            } else {
                Ok(Some(b.subrange(at + 8, at + 8 + size)))
            },
        }
    }
}

/// A chunk with its header before it.
pub open spec fn framed(chunk: Seq<u8>) -> Seq<u8> {
    let n = chunk.len() as int;
    seq![
        66u8,
        73u8,
        78u8,
        80u8,
        (n % 256) as u8,
        (n / 256 % 256) as u8,
        (n / 65_536 % 256) as u8,
        (n / 16_777_216 % 256) as u8,
    ] + chunk
}

proof fn lemma_four_bytes(n: int)
    requires
        0 <= n < 0x1_0000_0000,
    ensures
        n % 256 + 256 * (n / 256 % 256) + 65_536 * (n / 65_536 % 256) + 16_777_216 * (n
            / 16_777_216 % 256) == n,
{
}

/// A chunk that stands between others, with its header, is read back.
pub proof fn a_framed_chunk_is_read_back(before: Seq<u8>, chunk: Seq<u8>, after: Seq<u8>)
    requires
        chunk.len() <= MAX_CHUNK,
    ensures
        chunk_at(before + framed(chunk) + after, before.len() as int) == Ok::<
            Option<Seq<u8>>,
            ChunkError,
        >(Some(chunk)),
{
    let data = before + framed(chunk) + after;
    let at = before.len() as int;
    let n = chunk.len() as int;
    lemma_four_bytes(n);
    let header = framed(chunk).take(8);
    assert(data.subrange(at, at + 8) =~= header);
    assert(forall|i: int| 0 <= i < 8 ==> data[at + i] == #[trigger] data.subrange(at, at + 8)[i]);
    assert(little_endian_32(header, 4) == n);
    assert(announced(data, at) == Ok::<int, ChunkError>(n)) by {
        assert(data[at] == header[0] && data[at + 1] == header[1] && data[at + 2] == header[2]
            && data[at + 3] == header[3]);
        assert(data[at + 4] == header[4] && data[at + 4 + 1] == header[5] && data[at + 4 + 2]
            == header[6] && data[at + 4 + 3] == header[7]);
    }
    assert(data.subrange(at + 8, at + 8 + n) =~= chunk);
}

/// Reads the chunk that starts at a place, and goes to the place behind it.
pub fn read_binpack_chunk(data: &[u8], at: &mut usize, chunk: &mut Vec<u8>) -> (r: Result<
    bool,
    ChunkError,
>)
    requires
        *old(at) <= data@.len(),
    ensures
        *final(at) <= data@.len(),
        match chunk_at(data@, *old(at) as int) {
            Ok(Some(bytes)) => r == Ok::<bool, ChunkError>(true) && final(chunk)@ == bytes
                && *final(at) == *old(at) + 8 + bytes.len(),
            Ok(None) => r == Ok::<bool, ChunkError>(false) && *final(at) == *old(at)
                && final(chunk)@ == old(chunk)@,
            Err(e) => r == Err::<bool, ChunkError>(e) && *final(at) == *old(at)
                && final(chunk)@ == old(chunk)@,
        },
{
    let len: usize = data.len();
    let start: usize = *at;
    if start == len {
        return Ok(false);
    }
    if len - start < 8 {
        return Err(ChunkError::Truncated);
    }
    let size: usize = match chunk_size(data, start) {
        Ok(size) => size,
        Err(e) => {
            return Err(e);
        },
    };
    if len - start - 8 < size {
        return Err(ChunkError::Truncated);
    }
    let mut bytes: Vec<u8> = Vec::new();
    let mut i: usize = 0;
    while i < size
        invariant
            i <= size,
            start + 8 + size <= data@.len() == len,
            bytes@ == data@.subrange(start + 8, start + 8 + i),
        decreases size - i,
    {
        bytes.push(data[start + 8 + i]);
        i = i + 1;
        assert(bytes@ =~= data@.subrange(start + 8, start + 8 + i));
    }
    *chunk = bytes;
    *at = start + 8 + size;
    Ok(true)
}

/// An entry of an archive: the position, if it can be written as FEN, and what
/// is known of it.
pub struct Entry {
    pub fen: Option<String>,
    pub white_to_move: bool,
    pub ply: u16,
    pub in_check: bool,
    pub score: i16,
    pub normal_move: bool,
    pub target_empty: bool,
    pub result: i16,
}

/// Whether an entry is of a late enough ply to be quiet.
pub open spec fn is_late(ply: u16) -> bool {
    ply >= 16
}

/// Whether an entry is quiet: late enough, not in check, with a score that is
/// not extreme and a move that captures nothing.
pub open spec fn is_calm(entry: Entry) -> bool {
    &&& is_late(entry.ply)
    &&& !entry.in_check
    &&& -10_000 <= entry.score <= 10_000
    &&& entry.normal_move
    &&& entry.target_empty
}

/// Whether an entry of a ply can be quiet.
pub fn is_late_enough(ply: u16) -> (r: bool)
    ensures
        r == is_late(ply),
{
    ply >= 16
}

/// Whether an entry is quiet.
pub fn is_quiet(entry: &Entry) -> (r: bool)
    ensures
        r == is_calm(*entry),
{
    is_late_enough(entry.ply) && !entry.in_check && -10_000 <= entry.score && entry.score <= 10_000
        && entry.normal_move && entry.target_empty
}

/// A position to evaluate, with the result of its game.
pub struct WorkItem {
    pub fen: String,
    pub board: Position,
    pub result: String,
}

/// What becomes of an entry.
pub enum Admission {
    Filtered,
    Invalid,
    Work(WorkItem),
}

/// The choice of entries to evaluate, with its counts.
pub struct Intake {
    pub target: u64,
    pub include_tactical: bool,
    pub scanned: u64,
    pub filtered: u64,
    pub invalid: u64,
    pub queued: u64,
}

/// The position of an entry, if its FEN describes one.
pub open spec fn entry_board(entry: Entry) -> Option<Position> {
    match entry.fen {
        Some(fen) => fen_position(fen@, false),
        None => None,
    }
}

/// The counts after an entry: every one is scanned, and counted where it is left out.
pub open spec fn considered(intake: Intake, entry: Entry) -> Intake {
    let seen = Intake { scanned: intake.scanned.wrapping_add(1), ..intake };
    if !intake.include_tactical && !is_calm(entry) {
        Intake { filtered: intake.filtered.wrapping_add(1), ..seen }
    } else if entry_board(entry) is None {
        Intake { invalid: intake.invalid.wrapping_add(1), ..seen }
    } else {
        seen
    }
}

impl Intake {
    pub fn new(target: u64, include_tactical: bool) -> (r: Intake)
        ensures
            r == (Intake {
                target,
                include_tactical,
                scanned: 0,
                filtered: 0,
                invalid: 0,
                queued: 0,
            }),
    {
        Intake { target, include_tactical, scanned: 0, filtered: 0, invalid: 0, queued: 0 }
    }

    /// Whether no more entries are wanted.
    pub fn is_full(&self) -> (r: bool)
        ensures
            r == (self.queued == self.target),
    {
        self.queued == self.target
    }

    /// Takes the next entry. The counts go on from zero when they overflow.
    pub fn consider(&mut self, entry: Entry) -> (r: Result<Admission, String>)
        ensures
            *final(self) == considered(*old(self), entry),
            ({
                let before = *old(self);
                let seen = Intake { scanned: before.scanned.wrapping_add(1), ..before };
                let result = white_result_of(entry.result as int, entry.white_to_move);
                if !before.include_tactical && !is_calm(entry) {
                    &&& r matches Ok(Admission::Filtered)
                    &&& *final(self) == (Intake {
                        filtered: before.filtered.wrapping_add(1),
                        ..seen
                    })
                } else {
                    match (entry_board(entry), result) {
                        (None, _) => {
                            &&& r matches Ok(Admission::Invalid)
                            &&& *final(self) == (Intake {
                                invalid: before.invalid.wrapping_add(1),
                                ..seen
                            })
                        },
                        (Some(board), Ok(text)) => {
                            &&& r matches Ok(Admission::Work(item)) && item.board == board
                                && board.valid() && item.result@ == text && entry.fen == Some(
                                item.fen,
                            )
                            &&& *final(self) == seen
                        },
                        (Some(board), Err(text)) => {
                            &&& r matches Err(e) && e@ == text
                            &&& *final(self) == seen
                        },
                    }
                }
            }),
    {
        self.scanned = self.scanned.wrapping_add(1);
        if !self.include_tactical && !is_quiet(&entry) {
            self.filtered = self.filtered.wrapping_add(1);
            return Ok(Admission::Filtered);
        }
        let fen: String = match entry.fen {
            Some(fen) => fen,
            None => {
                self.invalid = self.invalid.wrapping_add(1);
                return Ok(Admission::Invalid);
            },
        };
        let board: Position = match Position::from_fen(fen.as_str(), false) {
            Some(board) => board,
            None => {
                self.invalid = self.invalid.wrapping_add(1);
                return Ok(Admission::Invalid);
            },
        };
        match white_result(entry.result, entry.white_to_move) {
            Ok(result) => Ok(Admission::Work(WorkItem { fen, board, result })),
            Err(e) => Err(e),
        }
    }

    /// Counts a position that was handed out.
    pub fn hand_out(&mut self)
        requires
            old(self).queued < old(self).target,
        ensures
            *final(self) == (Intake { queued: (old(self).queued + 1) as u64, ..*old(self) }),
    {
        self.queued = self.queued + 1;
    }

    /// How many positions were handed out, when all that were wanted were, or
    /// the run was cancelled.
    pub fn finish(&self, cancelled: bool) -> (r: Result<u64, String>)
        ensures
            match r {
                Ok(n) => n == self.queued && (self.queued == self.target || cancelled),
                Err(e) => self.queued != self.target && !cancelled && e@
                    == "archive contained only "@ + decimal(self.queued as nat)
                    + " usable positions; requested "@ + decimal(self.target as nat),
            },
    {
        if self.queued != self.target && !cancelled {
            let mut error: String = "archive contained only ".to_owned();
            push_decimal(&mut error, self.queued);
            error.append(" usable positions; requested ");
            push_decimal(&mut error, self.target);
            return Err(error);
        }
        Ok(self.queued)
    }
}

/// What a search of a position came to: the score of the last depth that was
/// completed, whether it took a second search, and whether the flag cut it
/// short.
pub struct Scored {
    pub score: Option<i32>,
    pub retried: bool,
    pub cut_short: bool,
}

/// Whether a search of a position by itself can find a score: some depth that it
/// completes has it.
pub open spec fn can_score(
    engine: Engine,
    board: Position,
    nodes: u64,
    retried: bool,
    score: int,
) -> bool {
    let at = root(board, seq![board.hash]);
    exists|mv: Move|
        {
            let found = #[trigger] with_score(mv, score);
            if retried {
                completes_one(engine, at, found)
            } else {
                completes(engine, engine@, at, Some(nodes), i32::MAX as int, found)
            }
        }
}

/// A move with its score.
pub open spec fn with_score(mv: Move, score: int) -> (Move, int) {
    (mv, score)
}

/// Whether one search, or two, can find a score and leave these tables.
pub open spec fn leaves(
    engine: Engine,
    at: Place,
    score: Option<i32>,
    retried: bool,
    after: Memory,
) -> bool {
    exists|found: Option<(Move, i32)>|
        {
            &&& (match found {
                Some((_, s)) => Some(s),
                None => None,
            }) == score
            &&& if retried {
                two_searches(engine, engine@, at, #[trigger] as_found(found), after)
            } else {
                some_search(engine, engine@, at, as_found(found), after)
            }
        }
}

/// Whether a search of a position by itself can come to this, and leave these
/// tables. A score is that of a depth that the search completes, and a search
/// that was not cut short comes to what the model says.
pub open spec fn scores(
    engine: Engine,
    board: Position,
    nodes: u64,
    scored: Scored,
    after: Memory,
) -> bool {
    &&& scored.score matches Some(score) ==> -MAX_SCORE <= score <= MAX_SCORE && can_score(
        engine,
        board,
        nodes,
        scored.retried,
        score as int,
    )
    &&& !can_move(board) ==> scored.score is None && after == engine@
    &&& can_move(board) ==> leaves(
        engine,
        root(board, seq![board.hash]),
        scored.score,
        scored.retried,
        after,
    )
    &&& !scored.cut_short ==> {
        let p = probed(engine, engine@, root(board, seq![board.hash]), nodes);
        &&& scored.retried == p.retried
        &&& after == p.memory
        &&& match scored.score {
            Some(score) => p.found matches Some((_, s)) && s == score,
            None => p.found is None,
        }
    }
}

/// Searches a position with a limit of nodes, and once more to depth one where
/// the limit was too small for a single depth.
pub fn search_score(
    engine: &mut Engine,
    board: &Position,
    nodes: u64,
    cancelled: &Arc<AtomicBool>,
) -> (r: Scored)
    requires
        old(engine).wf(),
        board.valid(),
    ensures
        final(engine).wf(),
        final(engine).same_parts(*old(engine)),
        scores(*old(engine), *board, nodes, r, final(engine)@),
{
    let history: Vec<u64> = vec![board.hash];
    assert(history@ =~= seq![board.hash]);
    let p: Probe = probe(engine, board, history, nodes, cancelled);
    let score: Option<i32> = match p.found {
        Some((mv, score)) => {
            assert(with_score(mv, score as int) == (mv, score as int));
            Some(score)
        },
        None => None,
    };
    Scored { score, retried: p.retried, cut_short: p.cut_short }
}

/// What a worker makes of a position.
pub enum Evaluated {
    Line(String),
    Cancelled,
    Failed(String),
}

/// The line of the output for a position whose side to move has a score.
pub open spec fn line_of(item: WorkItem, score: int) -> Seq<char> {
    record_of(
        item.fen@,
        white_score_of(score, item.board.side_to_move == Color::White),
        item.result@,
    )
}

/// What is said where not even depth one was completed.
pub open spec fn incomplete(worker: nat, fen: Seq<char>) -> Seq<char> {
    "worker "@ + decimal(worker) + " did not complete depth 1 for FEN "@ + fen
}

/// Whether this is what a worker hands on for a position with a score, or
/// without one: a line for every score, and else nothing where the run was
/// cancelled, or an error.
pub open spec fn concludes(
    worker: usize,
    item: WorkItem,
    score: Option<i32>,
    cancelled: bool,
    r: Evaluated,
) -> bool {
    match (score, r) {
        (Some(s), Evaluated::Line(line)) => line@ == line_of(item, s as int),
        (None, Evaluated::Cancelled) => cancelled,
        (None, Evaluated::Failed(error)) => !cancelled && error@ == incomplete(
            worker as nat,
            item.fen@,
        ),
        _ => false,
    }
}

/// Turns the score of a position into what the worker hands on.
pub fn conclude_item(worker: usize, item: &WorkItem, score: Option<i32>, cancelled: bool) -> (r:
    Evaluated)
    ensures
        concludes(worker, *item, score, cancelled, r),
{
    match score {
        Some(score) => {
            let white: i32 = white_score(score, item.board.side_to_move == Color::White);
            Evaluated::Line(format_record(item.fen.as_str(), white, item.result.as_str()))
        },
        None => if cancelled {
            Evaluated::Cancelled
        } else {
            let mut error: String = "worker ".to_owned();
            push_decimal(&mut error, worker as u64);
            error.append(" did not complete depth 1 for FEN ");
            error.append(item.fen.as_str());
            Evaluated::Failed(error)
        },
    }
}

/// What a worker makes of a position, and whether the flag cut its search
/// short.
pub struct EvaluatedItem {
    pub evaluated: Evaluated,
    pub cut_short: bool,
}

/// Evaluates a position: what its search came to is concluded, with what the
/// flag says after it. A search that was not cut short gives the line with the
/// score that it finds, and no line where it finds none.
pub fn evaluate_item(
    engine: &mut Engine,
    worker: usize,
    item: &WorkItem,
    nodes: u64,
    cancelled: &Arc<AtomicBool>,
) -> (r: EvaluatedItem)
    requires
        old(engine).wf(),
        item.board.valid(),
    ensures
        final(engine).wf(),
        final(engine).same_parts(*old(engine)),
        exists|scored: Scored, stopped: bool|
            {
                &&& #[trigger] scores(*old(engine), item.board, nodes, scored, final(engine)@)
                &&& #[trigger] concludes(worker, *item, scored.score, stopped, r.evaluated)
                &&& scored.cut_short == r.cut_short
            },
        !r.cut_short ==> {
            let p = probed(
                *old(engine),
                old(engine)@,
                root(item.board, seq![item.board.hash]),
                nodes,
            );
            &&& final(engine)@ == p.memory
            &&& match p.found {
                Some((_, s)) => r.evaluated matches Evaluated::Line(line) && line@ == line_of(
                    *item,
                    s,
                ),
                None => !(r.evaluated is Line),
            }
        },
{
    let scored: Scored = search_score(engine, &item.board, nodes, cancelled);
    let stopped: bool = flag_is_set(cancelled);
    let evaluated: Evaluated = conclude_item(worker, item, scored.score, stopped);
    EvaluatedItem { evaluated, cut_short: scored.cut_short }
}

/// What reader and workers tell the collector.
pub enum BulkEvent {
    Evaluated(String),
    ReaderDone(Result<u64, String>),
    WorkerError(String),
    WorkerDone,
}

/// What the collector does about it.
pub struct Reaction {
    pub write: Option<String>,
    pub progress: bool,
    pub cancel: bool,
}

/// The collector of the evaluated positions.
pub struct Collector {
    pub positions: u64,
    pub threads: usize,
    pub evaluated: u64,
    pub workers_done: usize,
    pub reader_done: bool,
    pub first_error: Option<String>,
}

/// The first error stays.
pub open spec fn first_of(first: Option<String>, error: String) -> Option<String> {
    match first {
        Some(e) => Some(e),
        None => Some(error),
    }
}

/// What a collector is after an event.
pub open spec fn collected(c: Collector, event: BulkEvent) -> Collector {
    match event {
        BulkEvent::Evaluated(_) => Collector { evaluated: (c.evaluated + 1) as u64, ..c },
        BulkEvent::ReaderDone(Ok(_)) => Collector { reader_done: true, ..c },
        BulkEvent::ReaderDone(Err(error)) => Collector {
            reader_done: true,
            first_error: first_of(c.first_error, error),
            ..c
        },
        BulkEvent::WorkerError(error) => Collector {
            first_error: first_of(c.first_error, error),
            ..c
        },
        BulkEvent::WorkerDone => Collector { workers_done: (c.workers_done + 1) as usize, ..c },
    }
}

impl Collector {
    pub fn new(positions: u64, threads: usize) -> (r: Collector)
        ensures
            r.positions == positions,
            r.threads == threads,
            r.evaluated == 0,
            r.workers_done == 0,
            !r.reader_done,
            r.first_error is None,
    {
        Collector {
            positions,
            threads,
            evaluated: 0,
            workers_done: 0,
            reader_done: false,
            first_error: None,
        }
    }

    /// Whether the reader or a worker is not done.
    pub fn is_running(&self) -> (r: bool)
        ensures
            r == (!self.reader_done || self.workers_done < self.threads),
    {
        !self.reader_done || self.workers_done < self.threads
    }

    fn note_error(&mut self, error: String)
        ensures
            *final(self) == (Collector {
                first_error: first_of(old(self).first_error, error),
                ..*old(self)
            }),
    {
        if self.first_error.is_none() {
            self.first_error = Some(error);
        }
    }

    /// Takes an event. A line is written and counted; an error cancels the
    /// run.
    pub fn take(&mut self, event: BulkEvent) -> (r: Reaction)
        requires
            old(self).evaluated < u64::MAX,
            old(self).workers_done < usize::MAX,
        ensures
            *final(self) == collected(*old(self), event),
            match event {
                BulkEvent::Evaluated(line) => {
                    &&& *final(self) == (Collector {
                        evaluated: (old(self).evaluated + 1) as u64,
                        ..*old(self)
                    })
                    &&& r.write == Some(line)
                    &&& r.progress == (final(self).evaluated as int % 1000 == 0
                        || final(self).evaluated == old(self).positions)
                    &&& !r.cancel
                },
                BulkEvent::ReaderDone(Ok(_)) => {
                    &&& *final(self) == (Collector { reader_done: true, ..*old(self) })
                    &&& r.write is None && !r.progress && !r.cancel
                },
                BulkEvent::ReaderDone(Err(error)) => {
                    &&& *final(self) == (Collector {
                        reader_done: true,
                        first_error: first_of(old(self).first_error, error),
                        ..*old(self)
                    })
                    &&& r.write is None && !r.progress && r.cancel
                },
                BulkEvent::WorkerError(error) => {
                    &&& *final(self) == (Collector {
                        first_error: first_of(old(self).first_error, error),
                        ..*old(self)
                    })
                    &&& r.write is None && !r.progress && r.cancel
                },
                BulkEvent::WorkerDone => {
                    &&& *final(self) == (Collector {
                        workers_done: (old(self).workers_done + 1) as usize,
                        ..*old(self)
                    })
                    &&& r.write is None && !r.progress && !r.cancel
                },
            },
    {
        match event {
            BulkEvent::Evaluated(line) => {
                self.evaluated = self.evaluated + 1;
                let progress: bool = self.evaluated % 1000 == 0 || self.evaluated
                    == self.positions;
                Reaction { write: Some(line), progress, cancel: false }
            },
            BulkEvent::ReaderDone(result) => {
                self.reader_done = true;
                match result {
                    Ok(_) => Reaction { write: None, progress: false, cancel: false },
                    Err(error) => {
                        self.note_error(error);
                        Reaction { write: None, progress: false, cancel: true }
                    },
                }
            },
            BulkEvent::WorkerError(error) => {
                self.note_error(error);
                Reaction { write: None, progress: false, cancel: true }
            },
            BulkEvent::WorkerDone => {
                self.workers_done = self.workers_done + 1;
                Reaction { write: None, progress: false, cancel: false }
            },
        }
    }

    /// How many positions were written, if they are all and nothing failed.
    pub fn finish(self) -> (r: Result<u64, String>)
        ensures
            match self.first_error {
                Some(error) => r == Err::<u64, String>(error),
                None => match r {
                    Ok(n) => n == self.evaluated == self.positions,
                    Err(e) => self.evaluated != self.positions && e@ == "expected "@ + decimal(
                        self.positions as nat,
                    ) + " positions but evaluated "@ + decimal(self.evaluated as nat),
                },
            },
    {
        if let Some(error) = self.first_error {
            return Err(error);
        }
        if self.evaluated != self.positions {
            let mut error: String = "expected ".to_owned();
            push_decimal(&mut error, self.positions);
            error.append(" positions but evaluated ");
            push_decimal(&mut error, self.evaluated);
            return Err(error);
        }
        Ok(self.evaluated)
    }
}

/// A number with at least two digits.
pub open spec fn two_digits(n: nat) -> Seq<char> {
    if n < 10 {
        "0"@ + decimal(n)
    } else {
        decimal(n)
    }
}

/// Writes a number with at least two digits behind a text.
pub fn push_two_digits(out: &mut String, n: u64)
    ensures
        final(out)@ == old(out)@ + two_digits(n as nat),
{
    if n < 10 {
        out.append("0");
    }
    push_decimal(out, n);
    assert(out@ =~= old(out)@ + two_digits(n as nat));
}

/// A time in the largest units that fit.
pub open spec fn duration_text(seconds: nat) -> Seq<char> {
    let hours = seconds / 3600;
    let minutes = seconds % 3600 / 60;
    if hours > 0 {
        decimal(hours) + "h"@ + two_digits(minutes) + "m"@
    } else if minutes > 0 {
        decimal(minutes) + "m"@ + two_digits(seconds % 60) + "s"@
    } else {
        decimal(seconds % 60) + "s"@
    }
}

/// A time in the largest units that fit.
pub fn format_seconds(seconds: u64) -> (r: String)
    ensures
        r@ == duration_text(seconds as nat),
{
    let hours: u64 = seconds / 3600;
    let minutes: u64 = seconds % 3600 / 60;
    let mut out: String = String::new();
    if hours > 0 {
        push_decimal(&mut out, hours);
        out.append("h");
        push_two_digits(&mut out, minutes);
        out.append("m");
    } else if minutes > 0 {
        push_decimal(&mut out, minutes);
        out.append("m");
        push_two_digits(&mut out, seconds % 60);
        out.append("s");
    } else {
        push_decimal(&mut out, seconds % 60);
        out.append("s");
    }
    assert(out@ =~= duration_text(seconds as nat));
    out
}

} // verus!
