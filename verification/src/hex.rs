//! Hexadecimal numbers as given on the command line (offsets, lengths, addresses).
use vstd::prelude::*;

verus! {

/// Why a hexadecimal number could not be read.
#[derive(PartialEq, Eq, Structural, Clone, Copy, Debug)]
pub enum HexParseError {
    /// Nothing is left once the `0x` prefixes are removed.
    Empty,
    /// A character is not a hexadecimal digit.
    InvalidDigit,
    /// The number does not fit in 64 bits.
    PosOverflow,
}

/// `s` with every leading `0x` removed.
pub open spec fn strip_hex_prefixes(s: Seq<char>) -> Seq<char>
    decreases s.len(),
{
    if s.len() >= 2 && s[0] == '0' && s[1] == 'x' {
        strip_hex_prefixes(s.skip(2))
    } else {
        s
    }
}

/// The value of a hexadecimal digit, in either case.
pub open spec fn hex_digit(c: char) -> Option<nat> {
    if '0' <= c && c <= '9' {
        Some((c as int - '0' as int) as nat)
    } else if 'a' <= c && c <= 'f' {
        Some((c as int - 'a' as int + 10) as nat)
    } else if 'A' <= c && c <= 'F' {
        Some((c as int - 'A' as int + 10) as nat)
    } else {
        None
    }
}

/// The digits are `0` to `9` with their decimal values and the letters `a` to `f` with
/// the values 10 to 15, in either case: an upper-case letter has the value of its
/// lower-case counterpart, and no other character is a digit.
pub proof fn lemma_hex_digit_values(c: char)
    ensures
        hex_digit(c) is Some <==> ('0' <= c <= '9' || 'a' <= c <= 'f' || 'A' <= c <= 'F'),
        '0' <= c <= '9' ==> hex_digit(c) == Some((c as int - '0' as int) as nat),
        'a' <= c <= 'f' ==> hex_digit(c) == Some((c as int - 'a' as int + 10) as nat),
        'A' <= c <= 'F' ==> hex_digit(c) == hex_digit(((c as int) + 32) as char),
        hex_digit(c) matches Some(v) ==> v < 16,
{
    if 'A' <= c <= 'F' {
        let l = ((c as int) + 32) as char;
        assert('a' <= l <= 'f');
    }
}

/// Reading digits from left to right: the first character that is not a digit, or
/// the first digit after which the value no longer fits in 64 bits, ends the reading
/// with an error.
pub open spec fn hex_scan(u: Seq<char>) -> Result<nat, HexParseError>
    decreases u.len(),
{
    if u.len() == 0 {
        Ok(0)
    } else {
        match hex_scan(u.drop_last()) {
            Err(e) => Err(e),
            Ok(v) => match hex_digit(u.last()) {
                None => Err(HexParseError::InvalidDigit),
                Some(d) => if v * 16 + d > u64::MAX {
                    Err(HexParseError::PosOverflow)
                } else {
                    Ok(v * 16 + d)
                },
            },
        }
    }
}

/// The number written in hexadecimal in `s`, after any leading `0x`, with an optional
/// leading `+`.
pub open spec fn parse_hex_spec(s: Seq<char>) -> Result<u64, HexParseError> {
    let t = strip_hex_prefixes(s);
    if t.len() == 0 {
        Err(HexParseError::Empty)
    } else if t.len() == 1 && (t[0] == '+' || t[0] == '-') {
        Err(HexParseError::InvalidDigit)
    } else {
        let u = if t[0] == '+' {
            t.skip(1)
        } else {
            t
        };
        match hex_scan(u) {
            Ok(v) => Ok(v as u64),
            Err(e) => Err(e),
        }
    }
}

/// The value of the hexadecimal digit `c`, if it is one.
pub fn hex_digit_value(c: char) -> (d: Option<u64>)
    ensures
        match hex_digit(c) {
            Some(v) => d == Some(v as u64),
            None => d is None,
        },
        '0' <= c <= '9' ==> d == Some((c as int - '0' as int) as u64),
        'a' <= c <= 'f' ==> d == Some((c as int - 'a' as int + 10) as u64),
        'A' <= c <= 'F' ==> d == Some((c as int - 'A' as int + 10) as u64),
        !('0' <= c <= '9' || 'a' <= c <= 'f' || 'A' <= c <= 'F') ==> d is None,
{
    if '0' <= c && c <= '9' {
        Some((c as u32 - '0' as u32) as u64)
    } else if 'a' <= c && c <= 'f' {
        Some((c as u32 - 'a' as u32 + 10) as u64)
    } else if 'A' <= c && c <= 'F' {
        Some((c as u32 - 'A' as u32 + 10) as u64)
    } else {
        None
    }
}

/// Reads a hexadecimal number, written with or without leading `0x`.
pub fn hex_to_int(arg: &str) -> (res: Result<u64, HexParseError>)
    ensures
        res == parse_hex_spec(arg@),
{
    let n = arg.unicode_len();
    let ghost s = arg@;
    let mut i: usize = 0;
    assert(s.skip(0) =~= s);
    while n - i >= 2 && arg.get_char(i) == '0' && arg.get_char(i + 1) == 'x'
        invariant
            n == s.len(),
            i <= n,
            s == arg@,
            strip_hex_prefixes(s.skip(i as int)) == strip_hex_prefixes(s),
        decreases n - i,
    {
        assert(s.skip(i as int).skip(2) =~= s.skip(i + 2));
        assert(s.skip(i as int)[0] == s[i as int] && s.skip(i as int)[1] == s[i + 1]);
        i = i + 2;
    }
    let ghost t = s.skip(i as int);
    proof {
        if t.len() >= 2 {
            assert(t[0] == s[i as int] && t[1] == s[i + 1]);
        }
        assert(strip_hex_prefixes(s) == t);
    }
    if i == n {
        return Err(HexParseError::Empty);
    }
    let first = arg.get_char(i);
    assert(t[0] == first);
    if n - i == 1 && (first == '+' || first == '-') {
        return Err(HexParseError::InvalidDigit);
    }
    let mut j: usize = if first == '+' {
        i + 1
    } else {
        i
    };
    let ghost start = j as int;
    let ghost u = s.skip(start);
    proof {
        if first == '+' {
            assert(t.skip(1) =~= u);
        } else {
            assert(t =~= u);
        }
    }
    let mut v: u64 = 0;
    assert(u.take(0) =~= Seq::<char>::empty());
    while j < n
        invariant
            n == s.len(),
            s == arg@,
            0 <= start <= j <= n,
            u == s.skip(start),
            u.len() == n - start,
            parse_hex_spec(s) == (match hex_scan(u) {
                Ok(v) => Ok(v as u64),
                Err(e) => Err(e),
            }),
            hex_scan(u.take(j - start)) == Ok::<nat, HexParseError>(v as nat),
        decreases n - j,
    {
        let c = arg.get_char(j);
        assert(u[j - start] == s[j as int]);
        let ghost p = u.take(j - start + 1);
        assert(p.drop_last() =~= u.take(j - start));
        assert(p.last() == c);
        match hex_digit_value(c) {
            None => {
                proof {
                    assert(hex_scan(p) == Err::<nat, HexParseError>(HexParseError::InvalidDigit));
                    lemma_scan_error_persists(u, j - start + 1);
                }
                return Err(HexParseError::InvalidDigit);
            },
            Some(d) => {
                let next = match v.checked_mul(16) {
                    Some(m) => m.checked_add(d),
                    None => None,
                };
                match next {
                    Some(w) => {
                        assert(hex_scan(p) == Ok::<nat, HexParseError>(w as nat));
                        v = w;
                    },
                    None => {
                        proof {
                            assert(hex_scan(p) == Err::<nat, HexParseError>(HexParseError::PosOverflow));
                            lemma_scan_error_persists(u, j - start + 1);
                        }
                        return Err(HexParseError::PosOverflow);
                    },
                }
            },
        }
        j = j + 1;
    }
    assert(u.take(n - start) =~= u);
    Ok(v)
}

/// Leading `0x` prefixes are ignored: a number reads the same with one more in front.
pub proof fn lemma_parse_hex_prefix(s: Seq<char>)
    ensures
        parse_hex_spec(seq!['0', 'x'] + s) == parse_hex_spec(s),
{
    let t = seq!['0', 'x'] + s;
    assert(t.skip(2) =~= s);
    assert(t[0] == '0' && t[1] == 'x');
}

/// A leading `+` is accepted and leaves the number as it is, where what follows it is
/// not empty and starts with neither `+` nor `0x`.
pub proof fn lemma_parse_hex_plus(s: Seq<char>)
    requires
        s.len() >= 1,
        s[0] != '+',
        !(s.len() >= 2 && s[0] == '0' && s[1] == 'x'),
    ensures
        parse_hex_spec(seq!['+'] + s) == parse_hex_spec(s),
{
    let t = seq!['+'] + s;
    assert(t[0] == '+');
    assert(strip_hex_prefixes(t) == t);
    assert(strip_hex_prefixes(s) == s);
    assert(t.skip(1) =~= s);
    if s.len() == 1 && s[0] == '-' {
        assert(s.drop_last() =~= Seq::<char>::empty());
        assert(hex_scan(s.drop_last()) == Ok::<nat, HexParseError>(0));
        assert(s.last() == '-');
        assert(hex_digit('-') is None);
    }
}

/// A number written with a minus sign is refused.
pub proof fn lemma_parse_hex_minus(s: Seq<char>)
    ensures
        parse_hex_spec(seq!['-'] + s) == Err::<u64, HexParseError>(HexParseError::InvalidDigit),
{
    let t = seq!['-'] + s;
    assert(t[0] == '-');
    assert(strip_hex_prefixes(t) == t);
    if t.len() > 1 {
        assert(t.take(1).drop_last() =~= Seq::<char>::empty());
        assert(t.take(1).last() == '-');
        assert(hex_scan(t.take(1).drop_last()) == Ok::<nat, HexParseError>(0));
        assert(hex_digit('-') is None);
        assert(hex_scan(t.take(1)) == Err::<nat, HexParseError>(HexParseError::InvalidDigit));
        lemma_scan_error_persists(t, 1);
    }
}

proof fn lemma_strip_suffix(s: Seq<char>)
    ensures
        exists|j: int| 0 <= j <= s.len() && strip_hex_prefixes(s) == #[trigger] s.skip(j),
    decreases s.len(),
{
    if s.len() >= 2 && s[0] == '0' && s[1] == 'x' {
        lemma_strip_suffix(s.skip(2));
        let j = choose|j: int|
            0 <= j <= s.skip(2).len() && strip_hex_prefixes(s.skip(2)) == #[trigger] s.skip(2).skip(j);
        assert(s.skip(2).skip(j) =~= s.skip(j + 2));
    } else {
        assert(s.skip(0) =~= s);
    }
}

/// A number that is read ends in a hexadecimal digit: in particular, nothing but
/// prefixes and a sign is no number.
pub proof fn lemma_parse_hex_ends_in_digit(s: Seq<char>)
    ensures
        parse_hex_spec(s) is Ok ==> s.len() > 0 && hex_digit(s.last()) is Some,
{
    lemma_strip_suffix(s);
    let t = strip_hex_prefixes(s);
    let j = choose|j: int| 0 <= j <= s.len() && t == #[trigger] s.skip(j);
    if parse_hex_spec(s) is Ok {
        let u = if t[0] == '+' {
            t.skip(1)
        } else {
            t
        };
        assert(u.len() > 0);
        assert(u.last() == s.last());
        if hex_scan(u.drop_last()) is Ok {
            assert(hex_digit(u.last()) is Some);
        }
    }
}

proof fn lemma_strip_push(s: Seq<char>, c: char)
    requires
        c != 'x',
    ensures
        strip_hex_prefixes(s.push(c)) == strip_hex_prefixes(s).push(c),
    decreases s.len(),
{
    if s.len() >= 2 && s[0] == '0' && s[1] == 'x' {
        assert(s.push(c).skip(2) =~= s.skip(2).push(c));
        lemma_strip_push(s.skip(2), c);
    } else {
        assert(s.push(c)[0] == s[0] || s.len() == 0);
    }
}

/// Each further digit multiplies the number by sixteen and adds the digit's value; a
/// number that no longer fits in 64 bits is refused.
pub proof fn lemma_parse_hex_append_digit(s: Seq<char>, c: char)
    requires
        parse_hex_spec(s) is Ok,
        hex_digit(c) is Some,
    ensures
        ({
            let v = parse_hex_spec(s)->Ok_0 as nat;
            let d = hex_digit(c)->0;
            parse_hex_spec(s.push(c)) == if v * 16 + d <= u64::MAX {
                Ok::<u64, HexParseError>((v * 16 + d) as u64)
            } else {
                Err(HexParseError::PosOverflow)
            }
        }),
{
    lemma_strip_push(s, c);
    let t = strip_hex_prefixes(s);
    let u = if t[0] == '+' {
        t.skip(1)
    } else {
        t
    };
    let t2 = t.push(c);
    assert(t2[0] == t[0]);
    let u2 = if t2[0] == '+' {
        t2.skip(1)
    } else {
        t2
    };
    assert(u2 =~= u.push(c));
    assert(u2.drop_last() =~= u);
    assert(u2.last() == c);
    let w = hex_scan(u)->Ok_0;
    if u.len() > 0 {
        assert(w <= u64::MAX);
    }
}

proof fn lemma_scan_error_persists(u: Seq<char>, k: int)
    requires
        0 <= k <= u.len(),
        hex_scan(u.take(k)) is Err,
    ensures
        hex_scan(u) == hex_scan(u.take(k)),
    decreases u.len() - k,
{
    if k < u.len() {
        assert(u.take(k + 1).drop_last() =~= u.take(k));
        lemma_scan_error_persists(u, k + 1);
    } else {
        assert(u.take(k) =~= u);
    }
}

} // verus!
