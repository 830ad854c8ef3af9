//! The syntax of floats written as text, as `f64::from_str` accepts it.
//!
//! The standard library documents the accepted strings, after ASCII
//! lowercasing, as
//! `Sign? ('inf' | 'infinity' | 'nan' | Number)` with
//! `Number ::= (Digit+ | Digit+ '.' Digit* | Digit* '.' Digit+) Exp?`,
//! `Exp ::= 'e' Sign? Digit+`, `Sign ::= [+-]`, `Digit ::= [0-9]`.

use vstd::prelude::*;

verus! {

/// ASCII lowercase of a byte.
pub open spec fn ascii_lower(b: u8) -> u8 {
    if 65 <= b <= 90 {
        (b + 32) as u8
    } else {
        b
    }
}

/// `b` is an ASCII decimal digit.
pub open spec fn is_digit(b: u8) -> bool {
    48 <= b <= 57
}

/// Every byte is a digit.
pub open spec fn all_digits(s: Seq<u8>) -> bool {
    forall|i: int| 0 <= i < s.len() ==> is_digit(#[trigger] s[i])
}

/// `b` is `+` or `-`.
pub open spec fn is_sign(b: u8) -> bool {
    b == 43 || b == 45
}

/// `s` without a leading sign.
pub open spec fn unsigned_part(s: Seq<u8>) -> Seq<u8> {
    if s.len() > 0 && is_sign(s[0]) {
        s.skip(1)
    } else {
        s
    }
}

/// The index of the first `c` in `s` at or after `i`.
pub open spec fn find_byte(s: Seq<u8>, c: u8, i: int) -> Option<int>
    decreases s.len() - i,
{
    if i < 0 || i >= s.len() {
        None
    } else if s[i] == c {
        Some(i)
    } else {
        find_byte(s, c, i + 1)
    }
}

/// `Digit+ | Digit+ '.' Digit* | Digit* '.' Digit+`.
pub open spec fn mantissa_syntax(m: Seq<u8>) -> bool {
    match find_byte(m, 46, 0) {
        None => m.len() >= 1 && all_digits(m),
        Some(d) => m.len() >= 2 && all_digits(m.take(d)) && all_digits(m.skip(d + 1)),
    }
}

/// `Sign? Digit+` (what follows the `e` of an exponent).
pub open spec fn exponent_syntax(x: Seq<u8>) -> bool {
    let y = unsigned_part(x);
    y.len() >= 1 && all_digits(y)
}

/// `Number`, on lowercased bytes.
pub open spec fn number_syntax(u: Seq<u8>) -> bool {
    match find_byte(u, 101, 0) {
        None => mantissa_syntax(u),
        Some(p) => mantissa_syntax(u.take(p)) && exponent_syntax(u.skip(p + 1)),
    }
}

/// `s` lowercased.
pub open spec fn lowered(s: Seq<u8>) -> Seq<u8> {
    Seq::new(s.len(), |i: int| ascii_lower(s[i]))
}

/// The bytes of a string that `f64::from_str` accepts.
pub open spec fn float_syntax(t: Seq<u8>) -> bool {
    let u = lowered(unsigned_part(t));
    ||| u == seq![105u8, 110, 102]
    ||| u == seq![105u8, 110, 102, 105, 110, 105, 116, 121]
    ||| u == seq![110u8, 97, 110]
    ||| number_syntax(u)
}

fn lower(b: u8) -> (r: u8)
    ensures
        r == ascii_lower(b),
{
    if 65 <= b && b <= 90 {
        b + 32
    } else {
        b
    }
}

fn find_byte_exec(s: &Vec<u8>, c: u8) -> (r: Option<usize>)
    ensures
        r matches Some(i) ==> i < s.len() && find_byte(s@, c, 0) == Some(i as int),
        r is None ==> find_byte(s@, c, 0) is None,
{
    let mut i: usize = 0;
    while i < s.len()
        invariant
            i <= s@.len(),
            find_byte(s@, c, 0) == find_byte(s@, c, i as int),
        decreases s.len() - i,
    {
        if s[i] == c {
            return Some(i);
        }
        i += 1;
    }
    assert(find_byte(s@, c, i as int) is None);
    None
}

/// Whether the bytes `s[from..to]` are all digits.
fn digits_between(s: &Vec<u8>, from: usize, to: usize) -> (r: bool)
    requires
        from <= to <= s@.len(),
    ensures
        r == all_digits(s@.subrange(from as int, to as int)),
{
    let mut i = from;
    while i < to
        invariant
            from <= i <= to <= s@.len(),
            all_digits(s@.subrange(from as int, to as int)) == all_digits(
                s@.subrange(i as int, to as int),
            ),
        decreases to - i,
    {
        if !(48 <= s[i] && s[i] <= 57) {
            assert(s@.subrange(i as int, to as int)[0] == s@[i as int]);
            assert(!all_digits(s@.subrange(from as int, to as int))) by {
                assert(s@.subrange(from as int, to as int)[i - from] == s@[i as int]);
            }
            return false;
        }
        assert forall|k: int|
            0 <= k < to - (i + 1) implies #[trigger] s@.subrange(i + 1, to as int)[k] == s@.subrange(
            i as int,
            to as int,
        )[k + 1] by {}
        assert(all_digits(s@.subrange(i as int, to as int)) == all_digits(
            s@.subrange(i + 1, to as int),
        )) by {
            if all_digits(s@.subrange(i + 1, to as int)) {
                assert forall|k: int| 0 <= k < to - i implies is_digit(
                    #[trigger] s@.subrange(i as int, to as int)[k],
                ) by {
                    if k > 0 {
                        assert(s@.subrange(i as int, to as int)[k] == s@.subrange(
                            i + 1,
                            to as int,
                        )[k - 1]);
                    }
                }
            }
        }
        i += 1;
    }
    true
}

fn mantissa_ok(m: &Vec<u8>) -> (r: bool)
    ensures
        r == mantissa_syntax(m@),
{
    match find_byte_exec(m, 46) {
        None => {
            assert(m@.subrange(0, m@.len() as int) =~= m@);
            m.len() >= 1 && digits_between(m, 0, m.len())
        },
        Some(d) => {
            assert(m@.subrange(0, d as int) =~= m@.take(d as int));
            assert(m@.subrange(d + 1, m@.len() as int) =~= m@.skip(d + 1));
            m.len() >= 2 && digits_between(m, 0, d) && digits_between(m, d + 1, m.len())
        },
    }
}

fn copy_range(s: &Vec<u8>, from: usize, to: usize) -> (r: Vec<u8>)
    requires
        from <= to <= s@.len(),
    ensures
        r@ == s@.subrange(from as int, to as int),
{
    let mut r: Vec<u8> = Vec::new();
    let mut i = from;
    while i < to
        invariant
            from <= i <= to <= s@.len(),
            r@ == s@.subrange(from as int, i as int),
        decreases to - i,
    {
        r.push(s[i]);
        i += 1;
        assert(r@ =~= s@.subrange(from as int, i as int));
    }
    r
}

fn exponent_ok(s: &Vec<u8>, from: usize) -> (r: bool)
    requires
        from <= s@.len(),
    ensures
        r == exponent_syntax(s@.skip(from as int)),
{
    let ghost x = s@.skip(from as int);
    let start = if from < s.len() && (s[from] == 43 || s[from] == 45) {
        from + 1
    } else {
        from
    };
    assert(unsigned_part(x) =~= s@.subrange(start as int, s@.len() as int));
    s.len() - start >= 1 && digits_between(s, start, s.len())
}

fn number_ok(u: &Vec<u8>) -> (r: bool)
    ensures
        r == number_syntax(u@),
{
    match find_byte_exec(u, 101) {
        None => mantissa_ok(u),
        Some(p) => {
            let m = copy_range(u, 0, p);
            assert(m@ =~= u@.take(p as int));
            mantissa_ok(&m) && exponent_ok(u, p + 1)
        },
    }
}

fn bytes_equal(a: &Vec<u8>, b: &[u8]) -> (r: bool)
    ensures
        r == (a@ == b@),
{
    if a.len() != b.len() {
        return false;
    }
    let mut i: usize = 0;
    while i < a.len()
        invariant
            a@.len() == b@.len(),
            i <= a@.len(),
            forall|k: int| 0 <= k < i ==> a@[k] == b@[k],
        decreases a.len() - i,
    {
        if a[i] != b[i] {
            return false;
        }
        i += 1;
    }
    assert(a@ =~= b@);
    true
}

/// Whether `f64::from_str` accepts the bytes `t`.
pub fn float_text_ok(t: &[u8]) -> (r: bool)
    ensures
        r == float_syntax(t@),
{
    let start: usize = if t.len() > 0 && (t[0] == 43 || t[0] == 45) {
        1
    } else {
        0
    };
    let mut u: Vec<u8> = Vec::new();
    let mut i = start;
    while i < t.len()
        invariant
            start <= i <= t@.len(),
            u@ == lowered(t@.subrange(start as int, i as int)),
        decreases t.len() - i,
    {
        u.push(lower(t[i]));
        i += 1;
        assert(u@ =~= lowered(t@.subrange(start as int, i as int)));
    }
    assert(t@.subrange(start as int, t@.len() as int) =~= unsigned_part(t@));
    let inf: [u8; 3] = [105u8, 110, 102];
    let infinity: [u8; 8] = [105u8, 110, 102, 105, 110, 105, 116, 121];
    let nan: [u8; 3] = [110u8, 97, 110];
    assert(inf@ =~= seq![105u8, 110, 102]);
    assert(infinity@ =~= seq![105u8, 110, 102, 105, 110, 105, 116, 121]);
    assert(nan@ =~= seq![110u8, 97, 110]);
    bytes_equal(&u, &inf) || bytes_equal(&u, &infinity) || bytes_equal(&u, &nan) || number_ok(&u)
}

} // verus!
