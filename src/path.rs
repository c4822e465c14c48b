//! Where a tile lives on disk, relative to the tile root:
//! `<lod>/<x>,<y>.png`, each number in decimal.
use vstd::prelude::*;
use vstd::string::StringExecFns;
use crate::camera::TileKey;

verus! {

pub open spec fn digit_char(d: int) -> char {
    if d == 0 {
        '0'
    } else if d == 1 {
        '1'
    } else if d == 2 {
        '2'
    } else if d == 3 {
        '3'
    } else if d == 4 {
        '4'
    } else if d == 5 {
        '5'
    } else if d == 6 {
        '6'
    } else if d == 7 {
        '7'
    } else if d == 8 {
        '8'
    } else {
        '9'
    }
}

/// The decimal digits of `n`, most significant first, with no leading zero.
pub open spec fn decimal_nat(n: nat) -> Seq<char>
    decreases n,
{
    if n < 10 {
        seq![digit_char(n as int)]
    } else {
        decimal_nat(n / 10).push(digit_char((n % 10) as int))
    }
}

/// `n` in decimal, with a leading `-` when negative.
pub open spec fn decimal(n: int) -> Seq<char> {
    if n < 0 {
        seq!['-'] + decimal_nat((-n) as nat)
    } else {
        decimal_nat(n as nat)
    }
}

/// The tile's file, relative to the tile root.
pub open spec fn tile_file(key: TileKey) -> Seq<char> {
    decimal(key.lod as int) + seq!['/'] + decimal(key.x as int) + seq![','] + decimal(key.y as int) + seq![
        '.',
        'p',
        'n',
        'g',
    ]
}

fn digit_str(d: u64) -> (r: &'static str)
    requires
        d < 10,
    ensures
        r@ == seq![digit_char(d as int)],
{
    proof {
        reveal_strlit("0");
        reveal_strlit("1");
        reveal_strlit("2");
        reveal_strlit("3");
        reveal_strlit("4");
        reveal_strlit("5");
        reveal_strlit("6");
        reveal_strlit("7");
        reveal_strlit("8");
        reveal_strlit("9");
    }
    if d == 0 {
        "0"
    } else if d == 1 {
        "1"
    } else if d == 2 {
        "2"
    } else if d == 3 {
        "3"
    } else if d == 4 {
        "4"
    } else if d == 5 {
        "5"
    } else if d == 6 {
        "6"
    } else if d == 7 {
        "7"
    } else if d == 8 {
        "8"
    } else {
        "9"
    }
}

fn append_decimal(s: &mut String, n: u64)
    ensures
        final(s)@ == old(s)@ + decimal_nat(n as nat),
    decreases n,
{
    if n < 10 {
        s.append(digit_str(n));
    } else {
        append_decimal(s, n / 10);
        s.append(digit_str(n % 10));
        assert(old(s)@ + decimal_nat(n as nat) =~= old(s)@ + decimal_nat((n / 10) as nat) + seq![
            digit_char((n % 10) as int),
        ]);
    }
}

fn append_signed(s: &mut String, n: i64)
    ensures
        final(s)@ == old(s)@ + decimal(n as int),
{
    if n < 0 {
        proof {
            reveal_strlit("-");
        }
        s.append("-");
        let magnitude: u64 = if n == i64::MIN {
            0x8000_0000_0000_0000
        } else {
            (-n) as u64
        };
        append_decimal(s, magnitude);
        assert(old(s)@ + decimal(n as int) =~= old(s)@ + seq!['-'] + decimal_nat(magnitude as nat));
    } else {
        append_decimal(s, n as u64);
    }
}

/// The tile's file relative to the tile root: `<lod>/<x>,<y>.png`.
pub fn tile_path(key: &TileKey) -> (r: String)
    ensures
        r@ == tile_file(*key),
{
    proof {
        reveal_strlit("/");
        reveal_strlit(",");
        reveal_strlit(".png");
    }
    let mut s = String::new();
    append_decimal(&mut s, key.lod as u64);
    s.append("/");
    append_signed(&mut s, key.x as i64);
    s.append(",");
    append_signed(&mut s, key.y as i64);
    s.append(".png");
    assert(s@ =~= tile_file(*key));
    s
}

} // verus!
