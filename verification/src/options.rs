//! Command line options.

use crate::text::{
    characters, parse_i32, parse_unsigned, same_text, signed, text_of, texts, unsigned,
};
use vstd::prelude::*;
use vstd::string::StringExecFns;

verus! {

/// The arguments of a command line as values: nothing stands for one that is
/// not valid UTF-8.
pub open spec fn arguments(args: Seq<Option<String>>) -> Seq<Option<Seq<char>>> {
    args.map_values(
        |arg: Option<String>|
            match arg {
                Some(text) => Some(text@),
                None => None,
            },
    )
}

/// Whether a result is a value or an error text of the model.
pub open spec fn same_result<T>(r: Result<T, String>, s: Result<T, Seq<char>>) -> bool {
    match (r, s) {
        (Ok(a), Ok(b)) => a == b,
        (Err(a), Err(b)) => a@ == b,
        _ => false,
    }
}

/// The value of an option, which is the argument at a place.
pub open spec fn value_at(args: Seq<Option<Seq<char>>>, i: int, option: Seq<char>) -> Result<
    Seq<char>,
    Seq<char>,
> {
    if i < 0 || i >= args.len() {
        Err("missing value for "@ + option)
    } else {
        match args[i] {
            Some(value) => Ok(value),
            None => Err("value for "@ + option + " must be valid UTF-8"@),
        }
    }
}

/// What is said of a value that an option does not take.
pub open spec fn invalid_value(option: Seq<char>, value: Seq<char>) -> Seq<char> {
    "invalid value for "@ + option + ": "@ + value
}

/// The number that an option is given.
pub open spec fn count_option(
    args: Seq<Option<Seq<char>>>,
    i: int,
    option: Seq<char>,
    max: int,
) -> Result<u64, Seq<char>> {
    match value_at(args, i, option) {
        Err(e) => Err(e),
        Ok(value) => match unsigned(value, max) {
            Some(n) => Ok(n as u64),
            None => Err(invalid_value(option, value)),
        },
    }
}

/// The number that an option is given, which must not be zero.
pub open spec fn positive_option(
    args: Seq<Option<Seq<char>>>,
    i: int,
    option: Seq<char>,
    max: int,
) -> Result<u64, Seq<char>> {
    match count_option(args, i, option, max) {
        Ok(n) if n == 0 => Err(option + " must be positive"@),
        r => r,
    }
}

/// The number with a sign that an option is given, which must not be zero.
pub open spec fn signed_option(
    args: Seq<Option<Seq<char>>>,
    i: int,
    option: Seq<char>,
) -> Result<i32, Seq<char>> {
    match value_at(args, i, option) {
        Err(e) => Err(e),
        Ok(value) => match signed(value) {
            Some(n) => if n == 0 {
                Err(option + " must be positive"@)
            } else {
                Ok(n as i32)
            },
            None => Err(invalid_value(option, value)),
        },
    }
}

/// Two texts, one behind the other.
pub fn concat(a: &str, b: &str) -> (r: String)
    ensures
        r@ == a@ + b@,
{
    let mut out: String = a.to_owned();
    out.append(b);
    out
}

/// The value of an option.
pub fn value(args: &Vec<Option<String>>, i: usize, option: &str) -> (r: Result<String, String>)
    ensures
        match (r, value_at(arguments(args@), i as int, option@)) {
            (Ok(a), Ok(b)) => a@ == b && i < args@.len(),
            (Err(a), Err(b)) => a@ == b,
            _ => false,
        },
{
    if i >= args.len() {
        return Err(concat("missing value for ", option));
    }
    match &args[i] {
        Some(text) => Ok(text.clone()),
        None => Err(
            concat(concat("value for ", option).as_str(), " must be valid UTF-8"),
        ),
    }
}

fn rejected(option: &str, value: &str) -> (r: String)
    ensures
        r@ == invalid_value(option@, value@),
{
    let head: String = concat("invalid value for ", option);
    let middle: String = concat(head.as_str(), ": ");
    concat(middle.as_str(), value)
}

/// The number that an option is given.
pub fn count(args: &Vec<Option<String>>, i: usize, option: &str, max: u64) -> (r: Result<
    u64,
    String,
>)
    ensures
        same_result(r, count_option(arguments(args@), i as int, option@, max as int)),
        r matches Ok(n) ==> n <= max && i < args@.len(),
{
    match value(args, i, option) {
        Err(e) => Err(e),
        Ok(text) => match parse_unsigned(text.as_str(), max) {
            Some(n) => Ok(n),
            None => Err(rejected(option, text.as_str())),
        },
    }
}

/// The number that an option is given, which must not be zero.
pub fn parse_positive(args: &Vec<Option<String>>, i: usize, option: &str, max: u64) -> (r: Result<
    u64,
    String,
>)
    ensures
        same_result(r, positive_option(arguments(args@), i as int, option@, max as int)),
        r matches Ok(n) ==> 0 < n <= max && i < args@.len(),
{
    match count(args, i, option, max) {
        Err(e) => Err(e),
        Ok(n) => if n == 0 {
            Err(concat(option, " must be positive"))
        } else {
            Ok(n)
        },
    }
}

/// The number with a sign that an option is given, which must not be zero.
pub fn parse_signed(args: &Vec<Option<String>>, i: usize, option: &str) -> (r: Result<i32, String>)
    ensures
        same_result(r, signed_option(arguments(args@), i as int, option@)),
        r is Ok ==> i < args@.len(),
{
    match value(args, i, option) {
        Err(e) => Err(e),
        Ok(text) => match parse_i32(text.as_str()) {
            Some(n) => if n == 0 {
                Err(concat(option, " must be positive"))
            } else {
                Ok(n)
            },
            None => Err(rejected(option, text.as_str())),
        },
    }
}

/// Where the part of a path that starts at a place ends.
pub open spec fn part_end(s: Seq<char>, i: int) -> int
    decreases s.len() - i,
{
    if 0 <= i < s.len() && s[i] != '/' {
        part_end(s, i + 1)
    } else {
        i
    }
}

/// A part of a path ends behind its start.
pub proof fn lemma_part_end(s: Seq<char>, i: int)
    requires
        0 <= i <= s.len(),
    ensures
        i <= part_end(s, i) <= s.len(),
        i < s.len() && s[i] != '/' ==> i < part_end(s, i),
    decreases s.len() - i,
{
    if i < s.len() && s[i] != '/' {
        lemma_part_end(s, i + 1);
    }
}

/// The parts of a path from a place on. A dot counts only where it starts the
/// path.
pub open spec fn parts_from(s: Seq<char>, i: int) -> Seq<Seq<char>>
    decreases s.len() - i,
        when 0 <= i <= s.len()
{
    proof {
        lemma_part_end(s, i);
    }
    let part = s.subrange(i, part_end(s, i));
    if i == s.len() {
        Seq::empty()
    } else if s[i] == '/' {
        parts_from(s, i + 1)
    } else if part == "."@ && i > 0 {
        parts_from(s, part_end(s, i))
    } else {
        seq![part] + parts_from(s, part_end(s, i))
    }
}

/// Whether two texts name the same path: both from the root or neither, and
/// through the same parts.
pub open spec fn same_path(a: Seq<char>, b: Seq<char>) -> bool {
    &&& (a.len() > 0 && a[0] == '/') == (b.len() > 0 && b[0] == '/')
    &&& parts_from(a, 0) == parts_from(b, 0)
}

fn path_parts(chars: &Vec<char>) -> (r: Vec<String>)
    ensures
        texts(r@) == parts_from(chars@, 0),
{
    let ghost s = chars@;
    let mut out: Vec<String> = Vec::new();
    let mut i: usize = 0;
    assert(texts(out@) =~= Seq::<Seq<char>>::empty());
    assert(parts_from(s, 0) =~= texts(out@) + parts_from(s, 0));
    while i < chars.len()
        invariant
            i <= chars@.len(),
            chars@ == s,
            parts_from(s, 0) == texts(out@) + parts_from(s, i as int),
        decreases chars@.len() - i,
    {
        proof {
            lemma_part_end(s, i as int);
        }
        if chars[i] == '/' {
            i = i + 1;
        } else {
            let start: usize = i;
            while i < chars.len() && chars[i] != '/'
                invariant
                    start <= i <= chars@.len(),
                    chars@ == s,
                    part_end(s, start as int) == part_end(s, i as int),
                decreases chars@.len() - i,
            {
                i = i + 1;
            }
            let part: String = text_of(chars, start, i);
            if !(same_text(part.as_str(), ".") && start > 0) {
                let ghost before = out@;
                let ghost p = part@;
                out.push(part);
                proof {
                    assert(texts(out@) =~= texts(before).push(p));
                    assert(texts(before) + (seq![p] + parts_from(s, i as int)) =~= texts(out@)
                        + parts_from(s, i as int));
                }
            }
        }
    }
    assert(texts(out@) + parts_from(s, i as int) =~= texts(out@));
    out
}

/// Whether two texts name the same path.
pub fn paths_equal(a: &str, b: &str) -> (r: bool)
    ensures
        r == same_path(a@, b@),
{
    let x: Vec<char> = characters(a);
    let y: Vec<char> = characters(b);
    if (x.len() > 0 && x[0] == '/') != (y.len() > 0 && y[0] == '/') {
        return false;
    }
    let p: Vec<String> = path_parts(&x);
    let q: Vec<String> = path_parts(&y);
    if p.len() != q.len() {
        assert(texts(p@).len() != texts(q@).len());
        return false;
    }
    let mut i: usize = 0;
    while i < p.len()
        invariant
            i <= p@.len() == q@.len(),
            texts(p@) == parts_from(a@, 0),
            texts(q@) == parts_from(b@, 0),
            forall|j: int| 0 <= j < i ==> (#[trigger] p@[j])@ == q@[j]@,
        decreases p@.len() - i,
    {
        if !same_text(p[i].as_str(), q[i].as_str()) {
            assert(texts(p@)[i as int] != texts(q@)[i as int]);
            return false;
        }
        i = i + 1;
    }
    assert(texts(p@) =~= texts(q@));
    true
}

/// The path of the file that holds an output until it is complete.
pub fn partial_path(output: &str) -> (r: String)
    ensures
        r@ == output@ + ".part"@,
{
    concat(output, ".part")
}

/// Whether a file in the place of an output has to be removed first. It may
/// only be where the output is to be replaced.
pub fn replaces_file(path: &str, exists: bool, overwrite: bool) -> (r: Result<bool, String>)
    ensures
        match r {
            Ok(remove) => remove == exists && (exists ==> overwrite),
            Err(e) => exists && !overwrite && e@ == "output already exists: "@ + path@
                + "; use --overwrite"@,
        },
{
    if exists && !overwrite {
        let head: String = concat("output already exists: ", path);
        return Err(concat(head.as_str(), "; use --overwrite"));
    }
    Ok(exists)
}

} // verus!
