use vstd::prelude::*;
use vstd::string::*;

verus! {

/// The lower-case hexadecimal digit of a value below sixteen.
pub open spec fn hex_digit(n: u8) -> char
    recommends
        n < 16,
{
    seq!['0', '1', '2', '3', '4', '5', '6', '7', '8', '9', 'a', 'b', 'c', 'd', 'e', 'f'][n as int]
}

/// The text of the first `n` bytes of `b` in the 8-4-4-4-12 hexadecimal layout.
pub open spec fn uuid_text(b: Seq<u8>, n: nat) -> Seq<char>
    decreases n,
{
    if n == 0 {
        seq![]
    } else {
        let k = (n - 1) as int;
        uuid_text(b, (n - 1) as nat) + (if k == 4 || k == 6 || k == 8 || k == 10 {
            seq!['-']
        } else {
            seq![]
        }) + seq![hex_digit(b[k] / 16), hex_digit(b[k] % 16)]
    }
}

/// The bytes with the version (4) and variant (binary 10) bits of a random identifier set.
pub open spec fn v4_bytes(b: Seq<u8>) -> Seq<u8>
    recommends
        b.len() == 16,
{
    b.update(6, (b[6] & 0x0f) | 0x40).update(8, (b[8] & 0x3f) | 0x80)
}

/// The identifier built from sixteen random bytes.
pub open spec fn uuid_v4_text(b: Seq<u8>) -> Seq<char> {
    uuid_text(v4_bytes(b), 16)
}

fn hex_str(n: u8) -> (r: &'static str)
    requires
        n < 16,
    ensures
        r@ == seq![hex_digit(n)],
{
    let r = match n {
        0 => "0",
        1 => "1",
        2 => "2",
        3 => "3",
        4 => "4",
        5 => "5",
        6 => "6",
        7 => "7",
        8 => "8",
        9 => "9",
        10 => "a",
        11 => "b",
        12 => "c",
        13 => "d",
        14 => "e",
        _ => "f",
    };
    proof {
        reveal_strlit("0");
        reveal_strlit("1");
        reveal_strlit("2");
        reveal_strlit("3");
        reveal_strlit("4");
        reveal_strlit("5");
        reveal_strlit("6");
        reveal_strlit("7");
        reveal_strlit("8");
        reveal_strlit("9");
        reveal_strlit("a");
        reveal_strlit("b");
        reveal_strlit("c");
        reveal_strlit("d");
        reveal_strlit("e");
        reveal_strlit("f");
    }
    assert(r@ =~= seq![hex_digit(n)]);
    r
}

/// Formats sixteen random bytes as a version 4 identifier.
pub fn uuid_v4_from_bytes(bytes: [u8; 16]) -> (r: String)
    ensures
        r@ == uuid_v4_text(bytes@),
{
    let mut b = bytes;
    b[6] = (b[6] & 0x0f) | 0x40;
    b[8] = (b[8] & 0x3f) | 0x80;
    assert(b@ =~= v4_bytes(bytes@));
    let mut s = String::new();
    let mut i: usize = 0;
    while i < 16
        invariant
            i <= 16,
            b@ == v4_bytes(bytes@),
            s@ == uuid_text(b@, i as nat),
        decreases 16 - i,
    {
        if i == 4 || i == 6 || i == 8 || i == 10 {
            proof {
                reveal_strlit("-");
            }
            s = s.concat("-");
        }
        let x = b[i];
        s = s.concat(hex_str(x / 16));
        s = s.concat(hex_str(x % 16));
        i = i + 1;
        assert(s@ =~= uuid_text(b@, i as nat));
    }
    s
}

} // verus!
