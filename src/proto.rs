use vstd::prelude::*;
use vstd::string::*;
use std::num::ParseIntError;
use std::str::FromStr;
use crate::geometry::{open_dirs, Direction, Position};

verus! {

/// Why a protocol line was not turned into a message.
#[derive(Debug)]
pub enum GpnError {
    /// The server reported an error.
    Soft(String),
    /// A line of a shape that no message has.
    Unknown(String),
    /// A numeric field that did not parse.
    ParseError(String),
}

/// One message of the game protocol.
#[derive(Debug)]
pub enum Proto {
    Join { name: String, password: String },
    Goal { pos: Position },
    Pos { pos: Position, space: Vec<Direction> },
    Move { direction: Direction },
    Chat { message: String },
    Motd { message: String },
    Win { wins: i32, loses: i32 },
    Lose { wins: i32, loses: i32 },
    Game { width: i32, height: i32, goal: Position },
}

#[verifier::external_type_specification]
#[verifier::external_body]
pub struct ExParseIntError(ParseIntError);

pub open spec fn is_digit(c: char) -> bool {
    '0' as u32 <= c as u32 <= '9' as u32
}

pub open spec fn all_digits(s: Seq<char>) -> bool {
    forall|i: int| 0 <= i < s.len() ==> is_digit(#[trigger] s[i])
}

/// The number that a string of decimal digits writes.
pub open spec fn digits_value(s: Seq<char>) -> int
    decreases s.len(),
{
    if s.len() == 0 {
        0
    } else {
        digits_value(s.drop_last()) * 10 + (s.last() as u32 - '0' as u32)
    }
}

/// The integer that `s` writes: an optional sign, then one or more decimal
/// digits and nothing else.
pub open spec fn decimal(s: Seq<char>) -> Option<int> {
    if s.len() > 0 && (s[0] == '-' || s[0] == '+') {
        let rest = s.drop_first();
        if rest.len() > 0 && all_digits(rest) {
            Some(if s[0] == '-' { -digits_value(rest) } else { digits_value(rest) })
        } else {
            None
        }
    } else if s.len() > 0 && all_digits(s) {
        Some(digits_value(s))
    } else {
        None
    }
}

/// The `i32` that `s` writes, if it writes one in range.
pub open spec fn i32_field(s: Seq<char>) -> Option<i32> {
    match decimal(s) {
        Some(v) => if i32::MIN <= v <= i32::MAX {
            Some(v as i32)
        } else {
            None
        },
        None => None,
    }
}

/// Relies on `str::parse::<i32>`, which accepts an optional `+` or `-` and
/// then only decimal digits, and fails where the value is out of range.
#[verifier::external_body]
fn parse_i32(s: &str) -> (r: Result<i32, ParseIntError>)
    ensures
        r is Ok <==> i32_field(s@) is Some,
        r matches Ok(v) ==> i32_field(s@) == Some(v),
{
    s.parse::<i32>()
}

/// Relies on the `Display` of `ParseIntError`, for the message only.
#[verifier::external_body]
fn error_text(e: &ParseIntError) -> String {
    format!("{e}")
}

/// The fields of a line, split at every `|`.
pub open spec fn split_bar(s: Seq<char>) -> Seq<Seq<char>>
    decreases s.len(),
{
    if s.len() == 0 {
        seq![seq![]]
    } else {
        let prev = split_bar(s.drop_last());
        if s.last() == '|' {
            prev.push(seq![])
        } else {
            prev.update(prev.len() - 1, prev.last().push(s.last()))
        }
    }
}

pub open spec fn str_views(v: Seq<&str>) -> Seq<Seq<char>> {
    v.map_values(|a: &str| a@)
}

proof fn lemma_split_nonempty(s: Seq<char>)
    ensures
        split_bar(s).len() >= 1,
    decreases s.len(),
{
    if s.len() > 0 {
        lemma_split_nonempty(s.drop_last());
    }
}

/// The fields of `s`, split at every `|`.
pub fn split_fields<'a>(s: &'a str) -> (r: Vec<&'a str>)
    ensures
        str_views(r@) == split_bar(s@),
{
    let n = s.unicode_len();
    let mut fields: Vec<&'a str> = Vec::new();
    let mut start: usize = 0;
    let mut i: usize = 0;
    assert(str_views(fields@).push(s@.subrange(0, 0)) =~= split_bar(s@.subrange(0, 0))) by {
        assert(s@.subrange(0, 0) =~= Seq::<char>::empty());
    }
    while i < n
        invariant
            n == s@.len(),
            start <= i <= n,
            str_views(fields@).push(s@.subrange(start as int, i as int)) == split_bar(s@.subrange(0, i as int)),
        decreases n - i,
    {
        let c = s.get_char(i);
        let ghost pre = s@.subrange(0, i as int);
        let ghost now = s@.subrange(0, i as int + 1);
        assert(now.drop_last() =~= pre);
        assert(now.last() == c);
        proof {
            lemma_split_nonempty(pre);
        }
        let ghost before = str_views(fields@);
        if c == '|' {
            let part = s.substring_char(start, i);
            fields.push(part);
            assert(str_views(fields@) =~= before.push(s@.subrange(start as int, i as int)));
            assert(split_bar(now) == split_bar(pre).push(seq![]));
            assert(s@.subrange(i as int + 1, i as int + 1) =~= Seq::<char>::empty());
            assert(str_views(fields@).push(s@.subrange(i as int + 1, i as int + 1)) =~= split_bar(now));
            start = i + 1;
        } else {
            assert(s@.subrange(start as int, i as int + 1) =~= s@.subrange(start as int, i as int).push(c));
            assert(str_views(fields@).push(s@.subrange(start as int, i as int + 1)) =~= split_bar(now));
        }
        i = i + 1;
    }
    let ghost before = str_views(fields@);
    let part = s.substring_char(start, n);
    fields.push(part);
    assert(str_views(fields@) =~= before.push(s@.subrange(start as int, n as int)));
    assert(s@.subrange(0, n as int) =~= s@);
    assert(str_views(fields@) =~= split_bar(s@));
    fields
}

/// Whether `a` and `b` hold the same characters.
pub fn text_eq(a: &str, b: &str) -> (r: bool)
    ensures
        r == (a@ == b@),
{
    let n = a.unicode_len();
    if n != b.unicode_len() {
        return false;
    }
    let mut i: usize = 0;
    while i < n
        invariant
            n == a@.len(),
            n == b@.len(),
            i <= n,
            forall|k: int| 0 <= k < i ==> a@[k] == b@[k],
        decreases n - i,
    {
        if a.get_char(i) != b.get_char(i) {
            return false;
        }
        i = i + 1;
    }
    assert(a@ =~= b@);
    true
}

/// Fields `lo` to `hi` (exclusive) each write an `i32`.
pub open spec fn ints_ok(f: Seq<Seq<char>>, lo: int, hi: int) -> bool {
    forall|i: int| lo <= i < hi ==> (#[trigger] i32_field(f[i])) is Some
}

/// The `i32` that field `i` writes.
pub open spec fn int_at(f: Seq<Seq<char>>, i: int) -> i32 {
    match i32_field(f[i]) {
        Some(v) => v,
        None => 0,
    }
}

/// A position from two fields, `x` then `y`.
fn position_of(a: &str, b: &str) -> (r: Result<Position, ParseIntError>)
    ensures
        r is Ok <==> (i32_field(a@) is Some && i32_field(b@) is Some),
        r matches Ok(p) ==> Some(p.x) == i32_field(a@) && Some(p.y) == i32_field(b@),
{
    let x = match parse_i32(a) {
        Ok(v) => v,
        Err(e) => return Err(e),
    };
    let y = match parse_i32(b) {
        Ok(v) => v,
        Err(e) => return Err(e),
    };
    Ok(Position::new(x, y))
}

/// An `i32` field, with a failure turned into the protocol's error.
fn int_field(a: &str) -> (r: Result<i32, GpnError>)
    ensures
        r is Ok <==> i32_field(a@) is Some,
        r matches Ok(v) ==> Some(v) == i32_field(a@),
        r matches Err(e) ==> e is ParseError,
{
    match parse_i32(a) {
        Ok(v) => Ok(v),
        Err(e) => Err(GpnError::ParseError(error_text(&e))),
    }
}

impl Position {
    /// A position from its first two fields, `x` then `y`.
    pub fn parse(coords: &[&str]) -> (r: Result<Self, ParseIntError>)
        requires
            coords@.len() >= 2,
        ensures
            r is Ok <==> (i32_field(coords@[0]@) is Some && i32_field(coords@[1]@) is Some),
            r matches Ok(p) ==> Some(p.x) == i32_field(coords@[0]@) && Some(p.y) == i32_field(coords@[1]@),
    {
        position_of(coords[0], coords[1])
    }
}

impl Proto {
    /// Decodes one protocol line, whose fields are separated by `|`.
    pub fn parse_line(s: &str) -> (r: Result<Proto, GpnError>)
        ensures
            ({
                let f = split_bar(s@);
                let n = f.len();
                &&& f[0] == "chat"@ && n == 2 ==> (r matches Ok(Proto::Chat { message }) && message@ == f[1])
                &&& f[0] == "motd"@ && n == 2 ==> (r matches Ok(Proto::Motd { message }) && message@ == f[1])
                &&& f[0] == "goal"@ && n == 3 ==> if ints_ok(f, 1, 3) {
                    (r matches Ok(Proto::Goal { pos }) && pos.x == int_at(f, 1) && pos.y == int_at(f, 2))
                } else {
                    (r matches Err(GpnError::ParseError(_)))
                }
                &&& f[0] == "pos"@ && n == 7 ==> if ints_ok(f, 1, 3) {
                    (r matches Ok(Proto::Pos { pos, space }) && pos.x == int_at(f, 1) && pos.y == int_at(f, 2)
                        && space@ == open_dirs(f.subrange(3, 7), 4))
                } else {
                    (r matches Err(GpnError::ParseError(_)))
                }
                &&& f[0] == "game"@ && n == 5 ==> if ints_ok(f, 1, 5) {
                    (r matches Ok(Proto::Game { width, height, goal }) && width == int_at(f, 1) && height == int_at(f, 2)
                        && goal.x == int_at(f, 3) && goal.y == int_at(f, 4))
                } else {
                    (r matches Err(GpnError::ParseError(_)))
                }
                &&& f[0] == "win"@ && n == 3 ==> if ints_ok(f, 1, 3) {
                    (r matches Ok(Proto::Win { wins, loses }) && wins == int_at(f, 1) && loses == int_at(f, 2))
                } else {
                    (r matches Err(GpnError::ParseError(_)))
                }
                &&& f[0] == "lose"@ && n == 3 ==> if ints_ok(f, 1, 3) {
                    (r matches Ok(Proto::Lose { wins, loses }) && wins == int_at(f, 1) && loses == int_at(f, 2))
                } else {
                    (r matches Err(GpnError::ParseError(_)))
                }
                &&& !known_shape(f) && f[0] == "error"@ ==> (r matches Err(GpnError::Soft(m))
                    && m@ == "Received Error : "@ + s@)
                &&& !known_shape(f) && f[0] != "error"@ ==> (r matches Err(GpnError::Unknown(m))
                    && m@ == "Unknown Proto message : "@ + s@)
            }),
    {
        let args = split_fields(s);
        let ghost f = split_bar(s@);
        proof {
            lemma_split_nonempty(s@);
            reveal_strlit("chat");
            reveal_strlit("motd");
            reveal_strlit("goal");
            reveal_strlit("pos");
            reveal_strlit("game");
            reveal_strlit("win");
            reveal_strlit("lose");
            reveal_strlit("error");
            assert("chat"@[0] != "motd"@[0]);
            assert("goal"@[0] != "lose"@[0]);
            assert("win"@.len() != "goal"@.len());
            assert("win"@.len() != "lose"@.len());
        }
        assert(str_views(args@) == f);
        assert(forall|i: int| 0 <= i < args@.len() ==> (#[trigger] args@[i])@ == f[i]);
        let n = args.len();
        let tag = args[0];
        if n == 2 && text_eq(tag, "chat") {
            return Ok(Proto::Chat { message: args[1].to_owned() });
        }
        if n == 2 && text_eq(tag, "motd") {
            return Ok(Proto::Motd { message: args[1].to_owned() });
        }
        if n == 3 && text_eq(tag, "goal") {
            return match position_of(args[1], args[2]) {
                Ok(pos) => Ok(Proto::Goal { pos }),
                Err(e) => Err(GpnError::ParseError(error_text(&e))),
            };
        }
        if n == 7 && text_eq(tag, "pos") {
            return match position_of(args[1], args[2]) {
                Ok(pos) => {
                    let flags = [args[3], args[4], args[5], args[6]];
                    assert(flags@.map_values(|a: &str| a@) =~= f.subrange(3, 7));
                    Ok(Proto::Pos { pos, space: Direction::parse(flags) })
                },
                Err(e) => Err(GpnError::ParseError(error_text(&e))),
            };
        }
        if n == 5 && text_eq(tag, "game") {
            let width = match int_field(args[1]) {
                Ok(v) => v,
                Err(e) => return Err(e),
            };
            let height = match int_field(args[2]) {
                Ok(v) => v,
                Err(e) => return Err(e),
            };
            return match position_of(args[3], args[4]) {
                Ok(goal) => Ok(Proto::Game { width, height, goal }),
                Err(e) => Err(GpnError::ParseError(error_text(&e))),
            };
        }
        if n == 3 && (text_eq(tag, "win") || text_eq(tag, "lose")) {
            let wins = match int_field(args[1]) {
                Ok(v) => v,
                Err(e) => return Err(e),
            };
            let loses = match int_field(args[2]) {
                Ok(v) => v,
                Err(e) => return Err(e),
            };
            if text_eq(tag, "win") {
                return Ok(Proto::Win { wins, loses });
            } else {
                return Ok(Proto::Lose { wins, loses });
            }
        }
        if text_eq(tag, "error") {
            return Err(GpnError::Soft("Received Error : ".to_owned().concat(s)));
        }
        Err(GpnError::Unknown("Unknown Proto message : ".to_owned().concat(s)))
    }
}

/// A line whose tag and field count name a message.
pub open spec fn known_shape(f: Seq<Seq<char>>) -> bool {
    let n = f.len();
    ||| f[0] == "chat"@ && n == 2
    ||| f[0] == "motd"@ && n == 2
    ||| f[0] == "goal"@ && n == 3
    ||| f[0] == "pos"@ && n == 7
    ||| f[0] == "game"@ && n == 5
    ||| f[0] == "win"@ && n == 3
    ||| f[0] == "lose"@ && n == 3
}

impl FromStr for Proto {
    type Err = GpnError;

    fn from_str(s: &str) -> Result<Proto, GpnError> {
        Proto::parse_line(s)
    }
}

} // verus!
