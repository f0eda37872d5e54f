//! The messages exchanged with the game server, and the verified half of the
//! line protocol: parsing a received line into an [`Answer`] and rendering
//! the tokens of outgoing commands. Reading and writing sockets is the
//! transport layer's business and stays outside the library.

use vstd::prelude::*;
use crate::{MoveDirection, Position, Walls};

verus! {

/// A command sent to the server.
pub enum Command<'a> {
    Join(&'a str, &'a str),
    Move(MoveDirection),
    Chat(&'a str),
}

/// A message received from the server.
pub enum Answer {
    Motd(String),
    Error(String),
    Goal(Position),
    Pos(Position, Walls),
    Win(u32, u32),
    Lose(u32, u32),
    Game(Position, Position),
}

/// The position of the first `|` separator at or after `start`, or the end
/// of the line when none follows.
pub open spec fn field_end(s: Seq<char>, start: int) -> int
    decreases s.len() - start,
{
    if start < 0 || start >= s.len() {
        s.len() as int
    } else if s[start] == '|' {
        start
    } else {
        field_end(s, start + 1)
    }
}

/// Where field number `k` starts: one past the separator that ends the
/// previous field (beyond the line when the fields are exhausted).
pub open spec fn field_start(s: Seq<char>, k: int) -> int
    decreases k,
{
    if k <= 0 {
        0
    } else {
        field_end(s, field_start(s, k - 1)) + 1
    }
}

/// Whether the line has a field number `k` (possibly empty).
pub open spec fn has_field(s: Seq<char>, k: int) -> bool {
    field_start(s, k) <= s.len()
}

/// The characters of field number `k`.
pub open spec fn field(s: Seq<char>, k: int) -> Seq<char> {
    s.subrange(field_start(s, k), field_end(s, field_start(s, k)))
}

/// The digit value of the first `upto` characters, read in base ten.
pub open spec fn digits_val(s: Seq<char>, upto: int) -> int
    decreases upto,
{
    if upto <= 0 {
        0
    } else {
        digits_val(s, upto - 1) * 10 + (s[upto - 1] as u32 - 48)
    }
}

/// Every character is an ascii decimal digit.
pub open spec fn all_digits(s: Seq<char>) -> bool {
    forall|i: int| 0 <= i < s.len() ==> 48 <= (#[trigger] s[i]) as u32 <= 57
}

/// The digits of a number, after an optional leading plus sign.
pub open spec fn u32_body(s: Seq<char>) -> Seq<char> {
    if s.len() >= 1 && s[0] == '+' {
        s.subrange(1, s.len() as int)
    } else {
        s
    }
}

/// The strings that the standard library parses as a `u32`: an optional
/// leading plus sign, then at least one decimal digit, with a value that
/// fits.
pub open spec fn valid_u32_string(s: Seq<char>) -> bool {
    &&& u32_body(s).len() >= 1
    &&& all_digits(u32_body(s))
    &&& digits_val(u32_body(s), u32_body(s).len() as int) <= u32::MAX
}

/// The number a field denotes: its parsed value, or zero when it does not
/// parse as a `u32`.
pub open spec fn parse_u32_spec(s: Seq<char>) -> u32 {
    if valid_u32_string(s) {
        digits_val(u32_body(s), u32_body(s).len() as int) as u32
    } else {
        0
    }
}

/// The numeric value of field `k`: zero when the field is missing or not a
/// number.
pub open spec fn field_u32(s: Seq<char>, k: int) -> u32 {
    if has_field(s, k) {
        parse_u32_spec(field(s, k))
    } else {
        0
    }
}

/// The wall flag of field `k`: set exactly when the field is the single
/// character `1`.
pub open spec fn field_flag(s: Seq<char>, k: int) -> bool {
    has_field(s, k) && field(s, k) == seq!['1']
}

/// The text of field `k`, empty when the field is missing.
pub open spec fn field_text(s: Seq<char>, k: int) -> Seq<char> {
    if has_field(s, k) {
        field(s, k)
    } else {
        Seq::empty()
    }
}

/// What a parsed line must amount to: the message kind named by the first
/// field, with the payload fields read as the kind demands — numbers
/// defaulting to zero, texts to empty, wall flags to unset. A line whose
/// first field names no known kind (the empty line included) parses to
/// nothing.
pub open spec fn answer_matches(s: Seq<char>, r: Option<Answer>) -> bool {
    match r {
        Option::None => field(s, 0) != "motd"@ && field(s, 0) != "error"@ && field(s, 0)
            != "goal"@ && field(s, 0) != "pos"@ && field(s, 0) != "win"@ && field(s, 0) != "lose"@
            && field(s, 0) != "game"@,
        Option::Some(a) => match a {
            Answer::Motd(msg) => field(s, 0) == "motd"@ && msg@ == field_text(s, 1),
            Answer::Error(msg) => field(s, 0) == "error"@ && msg@ == field_text(s, 1),
            Answer::Goal(p) => field(s, 0) == "goal"@ && p.x == field_u32(s, 1) && p.y == field_u32(
                s,
                2,
            ),
            Answer::Pos(p, w) => field(s, 0) == "pos"@ && p.x == field_u32(s, 1) && p.y
                == field_u32(s, 2) && w.top == field_flag(s, 3) && w.right == field_flag(s, 4)
                && w.bottom == field_flag(s, 5) && w.left == field_flag(s, 6),
            Answer::Win(a1, a2) => field(s, 0) == "win"@ && a1 == field_u32(s, 1) && a2
                == field_u32(s, 2),
            Answer::Lose(a1, a2) => field(s, 0) == "lose"@ && a1 == field_u32(s, 1) && a2
                == field_u32(s, 2),
            Answer::Game(p1, p2) => field(s, 0) == "game"@ && p1.x == field_u32(s, 1) && p1.y
                == field_u32(s, 2) && p2.x == field_u32(s, 3) && p2.y == field_u32(s, 4),
        },
    }
}

/// Finds the end of the field that starts at `start`.
fn field_end_exec(s: &str, start: usize) -> (e: usize)
    requires
        start <= s@.len(),
    ensures
        e == field_end(s@, start as int),
        start <= e <= s@.len(),
{
    let n = s.unicode_len();
    let mut i = start;
    while i < n
        invariant
            start <= i <= n,
            n == s@.len(),
            field_end(s@, start as int) == field_end(s@, i as int),
        decreases n - i,
    {
        let c = s.get_char(i);
        if c == '|' {
            return i;
        }
        i = i + 1;
    }
    i
}

/// Fields, once exhausted, stay exhausted.
proof fn lemma_no_field_after(s: Seq<char>, k1: int, k2: int)
    requires
        !has_field(s, k1),
        0 <= k1 <= k2,
    ensures
        !has_field(s, k2),
    decreases k2 - k1,
{
    if k1 < k2 {
        assert(field_start(s, k1 + 1) == field_end(s, field_start(s, k1)) + 1);
        assert(field_end(s, field_start(s, k1)) == s.len());
        lemma_no_field_after(s, k1 + 1, k2);
    }
}

/// The start and end of field `k`, when the line has that many fields.
fn field_bounds(line: &str, k: usize) -> (r: Option<(usize, usize)>)
    ensures
        (match r {
            Some(b) => has_field(line@, k as int) && b.0 == field_start(line@, k as int) && b.1
                == field_end(line@, b.0 as int) && b.0 <= b.1 <= line@.len(),
            None => !has_field(line@, k as int),
        }),
{
    let n = line.unicode_len();
    let mut idx: usize = 0;
    let mut st: usize = 0;
    while idx < k
        invariant
            0 <= idx <= k,
            n == line@.len(),
            st == field_start(line@, idx as int),
            st <= n,
        decreases k - idx,
    {
        let e = field_end_exec(line, st);
        if e >= n {
            proof {
                assert(field_start(line@, idx + 1) == e + 1);
                assert(!has_field(line@, idx + 1));
                lemma_no_field_after(line@, idx + 1, k as int);
            }
            return None;
        }
        st = e + 1;
        idx = idx + 1;
    }
    let e = field_end_exec(line, st);
    Some((st, e))
}

/// Field `k` of the line, as a borrowed slice.
fn get_field<'a>(line: &'a str, k: usize) -> (r: Option<&'a str>)
    ensures
        (match r {
            Some(f) => has_field(line@, k as int) && f@ == field(line@, k as int),
            None => !has_field(line@, k as int),
        }),
{
    match field_bounds(line, k) {
        Some(b) => Some(line.substring_char(b.0, b.1)),
        None => None,
    }
}

/// Larger digit strings denote larger numbers: once a prefix exceeds the
/// `u32` range, the whole string does.
proof fn lemma_digits_overflow(s: Seq<char>, k: int)
    requires
        0 <= k <= s.len(),
        digits_val(s, k) > u32::MAX,
        all_digits(s),
    ensures
        digits_val(s, s.len() as int) > u32::MAX,
    decreases s.len() - k,
{
    if k < s.len() {
        assert(digits_val(s, k + 1) == digits_val(s, k) * 10 + (s[k] as u32 - 48));
        assert(digits_val(s, k) * 10 >= digits_val(s, k)) by (nonlinear_arith)
            requires
                digits_val(s, k) >= 0,
        ;
        lemma_digits_overflow(s, k + 1);
    }
}

/// Parses a field as the standard library would parse a `u32`, with zero
/// for anything that does not parse.
fn parse_u32_or_zero(s: &str) -> (r: u32)
    ensures
        r == parse_u32_spec(s@),
{
    let n = s.unicode_len();
    let start: usize = (if n >= 1 && s.get_char(0) == '+' {
        1
    } else {
        0
    });
    let ghost body = u32_body(s@);
    proof {
        assert(body =~= s@.subrange(start as int, n as int));
    }
    if n == start {
        return 0;
    }
    let mut acc: u64 = 0;
    let mut i = start;
    while i < n
        invariant
            start <= i <= n,
            n == s@.len(),
            body == u32_body(s@),
            body == s@.subrange(start as int, n as int),
            body.len() == n - start,
            forall|j: int| 0 <= j < i - start ==> 48 <= (#[trigger] body[j]) as u32 <= 57,
            acc == digits_val(body, i - start),
            acc <= u32::MAX,
        decreases n - i,
    {
        let c = s.get_char(i);
        proof {
            assert(body[i - start] == s@[i as int]);
        }
        let cv = c as u32;
        if cv < 48 || cv > 57 {
            proof {
                assert(!all_digits(body));
            }
            return 0;
        }
        let acc2 = acc * 10 + ((cv - 48) as u64);
        proof {
            assert(digits_val(body, i - start + 1) == digits_val(body, i - start) * 10 + (body[i
                - start] as u32 - 48));
        }
        if acc2 > u32::MAX as u64 {
            proof {
                if all_digits(body) {
                    lemma_digits_overflow(body, i - start + 1);
                }
            }
            return 0;
        }
        acc = acc2;
        i = i + 1;
    }
    proof {
        assert(valid_u32_string(s@));
    }
    acc as u32
}

/// Whether two strings hold the same characters.
fn str_eq(a: &str, b: &str) -> (r: bool)
    ensures
        r == (a@ == b@),
{
    let la = a.unicode_len();
    let lb = b.unicode_len();
    if la != lb {
        return false;
    }
    let mut i: usize = 0;
    while i < la
        invariant
            0 <= i <= la,
            la == a@.len() && la == b@.len(),
            forall|j: int| 0 <= j < i ==> a@[j] == b@[j],
        decreases la - i,
    {
        if s_get(a, i) != s_get(b, i) {
            return false;
        }
        i = i + 1;
    }
    proof {
        assert(a@ =~= b@);
    }
    true
}

/// One character of a string.
fn s_get(s: &str, i: usize) -> (c: char)
    requires
        i < s@.len(),
    ensures
        c == s@[i as int],
{
    s.get_char(i)
}

/// The numeric value of field `k`, zero when missing or malformed.
fn get_u32_field(line: &str, k: usize) -> (r: u32)
    ensures
        r == field_u32(line@, k as int),
{
    match get_field(line, k) {
        Some(f) => parse_u32_or_zero(f),
        None => 0,
    }
}

/// The wall flag of field `k`.
fn get_flag_field(line: &str, k: usize) -> (r: bool)
    ensures
        r == field_flag(line@, k as int),
{
    match get_field(line, k) {
        Some(f) => {
            let n = f.unicode_len();
            if n != 1 {
                proof {
                    assert(f@ != seq!['1']);
                }
                false
            } else {
                let c = f.get_char(0);
                proof {
                    if c == '1' {
                        assert(f@ =~= seq!['1']);
                    }
                }
                c == '1'
            }
        },
        None => false,
    }
}

/// The text of field `k`, empty when missing.
fn get_text_field(line: &str, k: usize) -> (r: String)
    ensures
        r@ == field_text(line@, k as int),
{
    match get_field(line, k) {
        Some(f) => f.to_owned(),
        None => String::new(),
    }
}

/// Parses one line of the wire protocol into a server message, exactly as
/// [`answer_matches`] lays down. The line is expected without its trailing
/// newline.
pub fn parse_answer(line: &str) -> (r: Option<Answer>)
    ensures
        answer_matches(line@, r),
{
    let e0 = field_end_exec(line, 0);
    let f0 = line.substring_char(0, e0);
    proof {
        assert(field_start(line@, 0) == 0);
        assert(f0@ == field(line@, 0));
    }
    if str_eq(f0, "motd") {
        Some(Answer::Motd(get_text_field(line, 1)))
    } else if str_eq(f0, "error") {
        Some(Answer::Error(get_text_field(line, 1)))
    } else if str_eq(f0, "goal") {
        Some(Answer::Goal(Position { x: get_u32_field(line, 1), y: get_u32_field(line, 2) }))
    } else if str_eq(f0, "pos") {
        Some(
            Answer::Pos(
                Position { x: get_u32_field(line, 1), y: get_u32_field(line, 2) },
                Walls {
                    top: get_flag_field(line, 3),
                    right: get_flag_field(line, 4),
                    bottom: get_flag_field(line, 5),
                    left: get_flag_field(line, 6),
                },
            ),
        )
    } else if str_eq(f0, "win") {
        Some(Answer::Win(get_u32_field(line, 1), get_u32_field(line, 2)))
    } else if str_eq(f0, "lose") {
        Some(Answer::Lose(get_u32_field(line, 1), get_u32_field(line, 2)))
    } else if str_eq(f0, "game") {
        Some(
            Answer::Game(
                Position { x: get_u32_field(line, 1), y: get_u32_field(line, 2) },
                Position { x: get_u32_field(line, 3), y: get_u32_field(line, 4) },
            ),
        )
    } else {
        None
    }
}

/// The full protocol line announcing one move, newline included.
pub fn move_command_line(direction: &MoveDirection) -> (r: &'static str)
    ensures
        (*direction == MoveDirection::Up ==> r@ == "move|up\n"@),
        (*direction == MoveDirection::Right ==> r@ == "move|right\n"@),
        (*direction == MoveDirection::Down ==> r@ == "move|down\n"@),
        (*direction == MoveDirection::Left ==> r@ == "move|left\n"@),
{
    match direction {
        MoveDirection::Up => "move|up\n",
        MoveDirection::Right => "move|right\n",
        MoveDirection::Down => "move|down\n",
        MoveDirection::Left => "move|left\n",
    }
}

} // verus!
