use vstd::prelude::*;

verus! {

/// The ASCII character of a decimal or hexadecimal digit value (0..16), upper case.
pub open spec fn digit_char(d: int) -> char {
    if d < 10 {
        (d + 48) as char
    } else {
        (d + 55) as char
    }
}

/// Decimal representation of `n`, most significant digit first, no leading zeros.
pub open spec fn dec_chars(n: nat) -> Seq<char>
    decreases n,
{
    if n < 10 {
        seq![digit_char(n as int)]
    } else {
        dec_chars(n / 10).push(digit_char((n % 10) as int))
    }
}

/// Upper-case hexadecimal representation of `n`, no leading zeros.
pub open spec fn hex_chars(n: nat) -> Seq<char>
    decreases n,
{
    if n < 16 {
        seq![digit_char(n as int)]
    } else {
        hex_chars(n / 16).push(digit_char((n % 16) as int))
    }
}

/// `s` left-padded with '0' to at least `width` characters.
pub open spec fn zero_pad(s: Seq<char>, width: nat) -> Seq<char> {
    if s.len() >= width {
        s
    } else {
        Seq::new((width - s.len()) as nat, |i: int| '0') + s
    }
}

/// Upper-case hexadecimal, zero-padded to at least four digits.
pub open spec fn hex4_chars(n: nat) -> Seq<char> {
    zero_pad(hex_chars(n), 4)
}

/// Each byte read as the character with that code point.
pub open spec fn bytes_as_chars(b: Seq<u8>) -> Seq<char> {
    b.map_values(|x: u8| x as char)
}

/// Appends one character to a `String` by std's `String::push`, trusted to
/// keep the characters already there and add `c` after them.
#[verifier::external_body]
pub(crate) fn push_char(s: &mut String, c: char)
    ensures
        final(s)@ == old(s)@.push(c),
{
    s.push(c);
}

fn digit_to_char(d: u64) -> (c: char)
    requires
        d < 16,
    ensures
        c == digit_char(d as int),
{
    if d < 10 {
        ((d as u8) + 48u8) as char
    } else {
        ((d as u8) + 55u8) as char
    }
}

/// Appends the decimal representation of `n`.
pub(crate) fn push_decimal(s: &mut String, n: u64)
    ensures
        final(s)@ == old(s)@ + dec_chars(n as nat),
    decreases n,
{
    if n >= 10 {
        push_decimal(s, n / 10);
    }
    let c = digit_to_char(n % 10);
    push_char(s, c);
    proof {
        if n >= 10 {
            assert(old(s)@ + dec_chars(n as nat) =~= old(s)@ + dec_chars((n / 10) as nat) + seq![c]);
        } else {
            assert(old(s)@ + dec_chars(n as nat) =~= old(s)@.push(c));
        }
    }
}

fn push_hex(s: &mut String, n: u64)
    ensures
        final(s)@ == old(s)@ + hex_chars(n as nat),
    decreases n,
{
    if n >= 16 {
        push_hex(s, n / 16);
    }
    let c = digit_to_char(n % 16);
    push_char(s, c);
    proof {
        if n >= 16 {
            assert(old(s)@ + hex_chars(n as nat) =~= old(s)@ + hex_chars((n / 16) as nat) + seq![c]);
        } else {
            assert(old(s)@ + hex_chars(n as nat) =~= old(s)@.push(c));
        }
    }
}

proof fn lemma_hex_len(n: nat)
    ensures
        hex_chars(n).len() >= 1,
        n < 16 ==> hex_chars(n).len() == 1,
        n < 256 ==> hex_chars(n).len() <= 2,
        n < 4096 ==> hex_chars(n).len() <= 3,
        n >= 16 ==> hex_chars(n).len() >= 2,
        n >= 256 ==> hex_chars(n).len() >= 3,
        n >= 4096 ==> hex_chars(n).len() >= 4,
    decreases n,
{
    if n >= 16 {
        lemma_hex_len(n / 16);
    }
}

/// Appends `n` in upper-case hexadecimal, zero-padded to at least four digits.
pub(crate) fn push_hex4(s: &mut String, n: u32)
    ensures
        final(s)@ == old(s)@ + hex4_chars(n as nat),
{
    proof {
        lemma_hex_len(n as nat);
    }
    let ghost h = hex_chars(n as nat);
    let mut pad: usize = 0;
    let npad: usize = if n < 16 {
        3
    } else if n < 256 {
        2
    } else if n < 4096 {
        1
    } else {
        0
    };
    assert(h.len() >= 4 ==> npad == 0) by {
        if n < 4096 {
        }
    };
    assert(npad > 0 ==> npad == 4 - h.len()) by {
        if n >= 16 && n < 256 {
            assert(h.len() == 2) by {
                reveal_with_fuel(hex_chars, 2);
            }
        }
        if n >= 256 && n < 4096 {
            assert(h.len() == 3) by {
                reveal_with_fuel(hex_chars, 3);
            }
        }
    };
    while pad < npad
        invariant
            pad <= npad <= 3,
            s@ == old(s)@ + Seq::new(pad as nat, |i: int| '0'),
        decreases npad - pad,
    {
        push_char(s, '0');
        pad = pad + 1;
        assert(s@ =~= old(s)@ + Seq::new(pad as nat, |i: int| '0'));
    }
    push_hex(s, n as u64);
    proof {
        if h.len() >= 4 {
            assert(hex4_chars(n as nat) == h);
            assert(Seq::new(npad as nat, |i: int| '0') =~= Seq::<char>::empty());
        } else {
            assert(npad == 4 - h.len());
            assert(hex4_chars(n as nat) =~= Seq::new(npad as nat, |i: int| '0') + h);
        }
    }
    assert(s@ =~= old(s)@ + hex4_chars(n as nat));
}

/// Appends every character of `t`.
pub(crate) fn push_str(s: &mut String, t: &str)
    ensures
        final(s)@ == old(s)@ + t@,
{
    s.append(t);
}

/// A `String` holding the characters of `cs`.
pub(crate) fn string_of_chars(cs: &Vec<char>) -> (s: String)
    ensures
        s@ == cs@,
{
    let mut s = String::new();
    let mut i: usize = 0;
    while i < cs.len()
        invariant
            i <= cs@.len(),
            s@ == cs@.subrange(0, i as int),
        decreases cs@.len() - i,
    {
        push_char(&mut s, cs[i]);
        i = i + 1;
        assert(s@ =~= cs@.subrange(0, i as int));
    }
    assert(cs@.subrange(0, cs@.len() as int) =~= cs@);
    s
}

/// The characters of `s`, in order.
pub(crate) fn chars_of_str(s: &str) -> (cs: Vec<char>)
    ensures
        cs@ == s@,
{
    let mut cs: Vec<char> = Vec::new();
    for c in it: s.chars()
        invariant
            cs@ == it.seq().subrange(0, it.index() as int),
            it.seq() == s@,
    {
        cs.push(c);
        assert(cs@ =~= it.seq().subrange(0, it.index() + 1));
    }
    assert(cs@ =~= s@);
    cs
}


/// Appends the decimal representation of `n` to a character vector.
pub(crate) fn push_decimal_chars(v: &mut Vec<char>, n: u64)
    ensures
        final(v)@ == old(v)@ + dec_chars(n as nat),
    decreases n,
{
    if n >= 10 {
        push_decimal_chars(v, n / 10);
    }
    let c = digit_to_char(n % 10);
    v.push(c);
    proof {
        if n >= 10 {
            assert(old(v)@ + dec_chars(n as nat) =~= old(v)@ + dec_chars((n / 10) as nat) + seq![c]);
        } else {
            assert(old(v)@ + dec_chars(n as nat) =~= old(v)@.push(c));
        }
    }
}

/// A copy of a character vector.
pub(crate) fn copy_chars(v: &Vec<char>) -> (r: Vec<char>)
    ensures
        r@ == v@,
{
    let mut r: Vec<char> = Vec::new();
    let mut i: usize = 0;
    while i < v.len()
        invariant
            i <= v@.len(),
            r@ == v@.subrange(0, i as int),
        decreases v@.len() - i,
    {
        r.push(v[i]);
        i = i + 1;
        assert(r@ =~= v@.subrange(0, i as int));
    }
    assert(v@.subrange(0, v@.len() as int) =~= v@);
    r
}

} // verus!
