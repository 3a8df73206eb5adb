//! Move notation on an 8x8 board: a square is a file letter `a`..`h` and a
//! rank digit; a move is the text of its origin square followed by its target.
//! Squares are numbered `rank_index * 8 + file_index`.

use vstd::prelude::*;

verus! {

/// The character for a digit value below ten.
pub open spec fn digit_char(d: nat) -> char
    recommends
        d < 10,
{
    ((d + 48) as u8) as char
}

/// The decimal text of a natural number, most significant digit first.
pub open spec fn decimal(n: nat) -> Seq<char>
    decreases n,
{
    if n < 10 {
        seq![digit_char(n)]
    } else {
        decimal(n / 10).push(digit_char(n % 10))
    }
}

/// The file letter of a file index below eight.
pub open spec fn file_char(x: nat) -> char
    recommends
        x < 8,
{
    ((x + 97) as u8) as char
}

/// The square named by a file character and a rank character, as a signed
/// number: `(rank - '1') * 8 + (file - 'a')`.
pub open spec fn square_value(file: char, rank: char) -> int {
    ((rank as int) - 49) * 8 + ((file as int) - 97)
}

/// The square as an unsigned 32-bit number, wrapping as a cast does.
pub open spec fn square_u32(file: char, rank: char) -> int {
    square_value(file, rank) % 0x1_0000_0000
}

/// The text of a move from square `from` to square `to`.
pub open spec fn move_text(from: nat, to: nat) -> Seq<char> {
    seq![file_char(from % 8)] + decimal(from / 8 + 1) + seq![file_char(to % 8)] + decimal(to / 8
        + 1)
}

fn square_of(file: char, rank: char) -> (r: u32)
    ensures
        r as int == square_u32(file, rank),
{
    let f: i64 = (file as u32) as i64;
    let k: i64 = (rank as u32) as i64;
    let v: i64 = (k - 49) * 8 + (f - 97);
    if v >= 0 {
        v as u32
    } else {
        (v + 0x1_0000_0000) as u32
    }
}

/// Reads a move from its first four characters: origin file, origin rank,
/// target file, target rank.
pub fn parse_move(action_str: &String) -> (r: (u32, u32))
    requires
        action_str@.len() >= 4,
    ensures
        r.0 as int == square_u32(action_str@[0], action_str@[1]),
        r.1 as int == square_u32(action_str@[2], action_str@[3]),
{
    let s = action_str.as_str();
    let from_x = s.get_char(0);
    let from_y = s.get_char(1);
    let to_x = s.get_char(2);
    let to_y = s.get_char(3);
    (square_of(from_x, from_y), square_of(to_x, to_y))
}

fn push_decimal(out: &mut Vec<char>, n: u64)
    ensures
        final(out)@ == old(out)@ + decimal(n as nat),
    decreases n,
{
    if n >= 10 {
        push_decimal(out, n / 10);
    }
    let d: u8 = (n % 10) as u8;
    out.push(char_of_code(d + 48));
    proof {
        assert(old(out)@ + decimal(n as nat) =~= (if n >= 10 {
            old(out)@ + decimal((n / 10) as nat)
        } else {
            old(out)@
        }).push(digit_char((n % 10) as nat)));
    }
}

fn char_of_code(c: u8) -> (r: char)
    ensures
        r == (c as char),
{
    c as char
}

/// Relies on `FromIterator<char>` for `String`: the string holds the
/// characters in the order given.
#[verifier::external_body]
fn string_of_chars(v: &Vec<char>) -> (r: String)
    ensures
        r@ == v@,
{
    v.iter().collect()
}

/// Writes a move as text: origin file and rank, then target file and rank.
/// Ranks beyond the board are written with all their digits.
pub fn serialize_move(action: &(u32, u32)) -> (r: String)
    ensures
        r@ == move_text(action.0 as nat, action.1 as nat),
{
    let (from, to) = *action;
    let mut out: Vec<char> = Vec::new();
    out.push(char_of_code((from % 8) as u8 + 97));
    push_decimal(&mut out, (from / 8) as u64 + 1);
    out.push(char_of_code((to % 8) as u8 + 97));
    push_decimal(&mut out, (to / 8) as u64 + 1);
    proof {
        assert(out@ =~= move_text(from as nat, to as nat));
    }
    string_of_chars(&out)
}

} // verus!
