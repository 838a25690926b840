//! Short identifiers and colour strings for the vector output.
use vstd::prelude::*;

verus! {

/// The letter standing for base-52 digit `d`: `a`-`z`, then `A`-`Z`.
pub open spec fn id_char(d: nat) -> char {
    if d < 26 {
        ((d + 97) as u8) as char
    } else {
        ((d - 26 + 65) as u8) as char
    }
}

/// `n` written in base 52 with the letters of `id_char`, most significant
/// digit first, with no leading `a`.
pub open spec fn id_of(n: nat) -> Seq<char>
    decreases n,
{
    if n < 52 {
        seq![id_char(n)]
    } else {
        id_of(n / 52).push(id_char(n % 52))
    }
}

/// The hexadecimal digit for `d`, upper case.
pub open spec fn hex_digit(d: nat) -> char {
    if d < 10 {
        ((d + 48) as u8) as char
    } else {
        ((d - 10 + 65) as u8) as char
    }
}

/// A byte as two upper-case hexadecimal digits.
pub open spec fn hex_byte(b: u8) -> Seq<char> {
    seq![hex_digit((b / 16) as nat), hex_digit((b % 16) as nat)]
}

/// Relies on `String`'s `FromIterator<&char>`: the string holds the given
/// characters in order.
#[verifier::external_body]
fn string_from_chars(chars: &Vec<char>) -> (r: String)
    ensures
        r@ == chars@,
{
    chars.iter().collect()
}

fn id_letter(d: usize) -> (c: char)
    requires
        d < 52,
    ensures
        c == id_char(d as nat),
{
    if d < 26 {
        (d as u8 + 97) as char
    } else {
        (d as u8 - 26 + 65) as char
    }
}

/// A short identifier for `input`: its base-52 letters.
pub fn generate_id(input: usize) -> (id: String)
    ensures
        id@ == id_of(input as nat),
{
    let mut chars: Vec<char> = Vec::new();
    let mut num = input;
    loop
        invariant_except_break
            (chars@.len() == 0 && num == input) || (num >= 1 && id_of(input as nat) == id_of(
                num as nat,
            ) + chars@),
        ensures
            id_of(input as nat) == chars@,
        decreases num,
    {
        let remainder = num % 52;
        let ghost before = num;
        num /= 52;
        chars.insert(0, id_letter(remainder));
        proof {
            if before >= 52 {
                assert(id_of(before as nat) == id_of(num as nat).push(id_char(remainder as nat)));
            }
        }
        if num == 0 {
            proof {
                assert(id_of(input as nat) == chars@);
            }
            break;
        }
        proof {
            assert(id_of(before as nat) + chars@.drop_first() == id_of(num as nat) + chars@);
        }
    }
    string_from_chars(&chars)
}

fn hex_char(d: u8) -> (c: char)
    requires
        d < 16,
    ensures
        c == hex_digit(d as nat),
{
    if d < 10 {
        (d + 48) as char
    } else {
        (d - 10 + 65) as char
    }
}

fn push_hex_byte(chars: &mut Vec<char>, b: u8)
    ensures
        final(chars)@ == old(chars)@ + hex_byte(b),
{
    chars.push(hex_char(b / 16));
    chars.push(hex_char(b % 16));
    assert(final(chars)@ =~= old(chars)@ + hex_byte(b));
}

/// The colour as a string of the form `#RRGGBBAA`, upper-case hexadecimal.
pub fn rgba_to_hex(r: u8, g: u8, b: u8, a: u8) -> (s: String)
    ensures
        s@ == seq!['#'] + hex_byte(r) + hex_byte(g) + hex_byte(b) + hex_byte(a),
{
    let mut chars: Vec<char> = Vec::new();
    chars.push('#');
    push_hex_byte(&mut chars, r);
    push_hex_byte(&mut chars, g);
    push_hex_byte(&mut chars, b);
    push_hex_byte(&mut chars, a);
    string_from_chars(&chars)
}

} // verus!
