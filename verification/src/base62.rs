use vstd::prelude::*;

verus! {

/// The 62 symbols of a short code, in order of their digit value.
pub const ALPHABET: &'static str = "0123456789ABCDEFGHIJKLMNOPQRSTUVWXYZabcdefghijklmnopqrstuvwxyz";

/// The radix of a short code.
pub const BASE: u64 = 62;

/// The symbol that stands for digit `d` (meaningful for `0 <= d < 62`).
pub open spec fn digit_char(d: int) -> char {
    if d < 10 {
        ('0' as int + d) as char
    } else if d < 36 {
        ('A' as int + (d - 10)) as char
    } else {
        ('a' as int + (d - 36)) as char
    }
}

/// `c` is one of the 62 symbols of the alphabet.
pub open spec fn is_digit_char(c: char) -> bool {
    ('0' <= c && c <= '9') || ('A' <= c && c <= 'Z') || ('a' <= c && c <= 'z')
}

/// The digit value of a symbol of the alphabet: its position in `ALPHABET`.
pub open spec fn char_value(c: char) -> nat {
    if c <= '9' {
        (c as int - '0' as int) as nat
    } else if c <= 'Z' {
        (c as int - 'A' as int + 10) as nat
    } else {
        (c as int - 'a' as int + 36) as nat
    }
}

/// Every symbol of `s` belongs to the alphabet.
pub open spec fn all_digit_chars(s: Seq<char>) -> bool {
    forall|i: int| 0 <= i < s.len() ==> #[trigger] is_digit_char(s[i])
}

/// `s` is a code that `encode` can produce: non-empty, made of alphabet
/// symbols, and without a leading `'0'` unless it is `"0"` itself.
pub open spec fn is_canonical(s: Seq<char>) -> bool {
    &&& s.len() > 0
    &&& all_digit_chars(s)
    &&& (s.len() > 1 ==> s[0] != '0')
}

/// The base-62 representation of `n`, most significant digit first.
pub open spec fn spec_encode(n: nat) -> Seq<char>
    decreases n,
{
    if n < 62 {
        seq![digit_char(n as int)]
    } else {
        spec_encode(n / 62).push(digit_char((n % 62) as int))
    }
}

/// The number that the base-62 digits `s` stand for, most significant first.
pub open spec fn spec_decode(s: Seq<char>) -> nat
    decreases s.len(),
{
    if s.len() == 0 {
        0
    } else {
        spec_decode(s.drop_last()) * 62 + char_value(s.last())
    }
}

proof fn lemma_alphabet()
    ensures
        ALPHABET@.len() == 62,
        forall|d: int| 0 <= d < 62 ==> #[trigger] ALPHABET@[d] == digit_char(d),
{
    reveal_strlit("0123456789ABCDEFGHIJKLMNOPQRSTUVWXYZabcdefghijklmnopqrstuvwxyz");
    assert(ALPHABET@ =~= seq![
        '0', '1', '2', '3', '4', '5', '6', '7', '8', '9',
        'A', 'B', 'C', 'D', 'E', 'F', 'G', 'H', 'I', 'J', 'K', 'L', 'M',
        'N', 'O', 'P', 'Q', 'R', 'S', 'T', 'U', 'V', 'W', 'X', 'Y', 'Z',
        'a', 'b', 'c', 'd', 'e', 'f', 'g', 'h', 'i', 'j', 'k', 'l', 'm',
        'n', 'o', 'p', 'q', 'r', 's', 't', 'u', 'v', 'w', 'x', 'y', 'z',
    ]);
}

/// Digit values and symbols correspond one to one.
pub proof fn lemma_digit_char_value(d: int)
    requires
        0 <= d < 62,
    ensures
        is_digit_char(digit_char(d)),
        char_value(digit_char(d)) == d,
        (digit_char(d) == '0') <==> (d == 0),
        digit_char(d) != '/',
{
}

/// Every symbol of the alphabet is the symbol of its own digit value.
pub proof fn lemma_char_value_digit(c: char)
    requires
        is_digit_char(c),
    ensures
        char_value(c) < 62,
        digit_char(char_value(c) as int) == c,
{
}

/// An encoding is never empty and is made of alphabet symbols only.
pub proof fn lemma_encode_canonical(n: nat)
    ensures
        is_canonical(spec_encode(n)),
        spec_encode(n)[0] == '0' ==> n == 0,
    decreases n,
{
    lemma_digit_char_value((n % 62) as int);
    if n >= 62 {
        lemma_encode_canonical(n / 62);
        let s = spec_encode(n / 62);
        let t = s.push(digit_char((n % 62) as int));
        assert forall|i: int| 0 <= i < t.len() implies #[trigger] is_digit_char(t[i]) by {
            if i < s.len() {
                assert(t[i] == s[i]);
            }
        }
        assert(t[0] == s[0]);
    } else {
        lemma_digit_char_value(n as int);
    }
}

/// Decoding an encoding gives the number back.
pub proof fn lemma_decode_encode(n: nat)
    ensures
        spec_decode(spec_encode(n)) == n,
    decreases n,
{
    lemma_digit_char_value((n % 62) as int);
    if n < 62 {
        let s = spec_encode(n);
        assert(s.drop_last() =~= Seq::<char>::empty());
        assert(spec_decode(s.drop_last()) == 0);
        lemma_digit_char_value(n as int);
    } else {
        lemma_decode_encode(n / 62);
        let s = spec_encode(n);
        assert(s.drop_last() =~= spec_encode(n / 62));
        assert(s.last() == digit_char((n % 62) as int));
        assert(n == (n / 62) * 62 + n % 62);
    }
}

/// Encoding the value of a canonical code gives the code back.
pub proof fn lemma_encode_decode(s: Seq<char>)
    requires
        is_canonical(s),
    ensures
        spec_encode(spec_decode(s)) == s,
    decreases s.len(),
{
    let c = s.last();
    assert(is_digit_char(s[s.len() - 1]));
    lemma_char_value_digit(c);
    if s.len() == 1 {
        assert(s.drop_last() =~= Seq::<char>::empty());
        assert(spec_decode(s.drop_last()) == 0);
        assert(spec_decode(s) == char_value(c));
        assert(spec_encode(spec_decode(s)) =~= s);
    } else {
        let p = s.drop_last();
        assert(p[0] == s[0]);
        assert forall|i: int| 0 <= i < p.len() implies #[trigger] is_digit_char(p[i]) by {
            assert(p[i] == s[i]);
        }
        lemma_encode_decode(p);
        lemma_decode_positive(p);
        let v = spec_decode(s);
        assert(v == spec_decode(p) * 62 + char_value(c));
        assert(v / 62 == spec_decode(p) && v % 62 == char_value(c)) by (nonlinear_arith)
            requires
                v == spec_decode(p) * 62 + char_value(c),
                char_value(c) < 62,
        ;
        assert(v >= 62);
        assert(spec_encode(v) =~= s);
    }
}

/// A canonical code of more than one symbol stands for at least 1.
proof fn lemma_decode_positive(s: Seq<char>)
    requires
        is_canonical(s),
    ensures
        spec_decode(s) >= 1 || s =~= seq!['0'],
    decreases s.len(),
{
    if s.len() == 1 {
        assert(s.drop_last() =~= Seq::<char>::empty());
        assert(is_digit_char(s[0]));
        if s[0] != '0' {
            lemma_char_value_digit(s[0]);
            assert(char_value(s[0]) != 0);
        }
    } else {
        let p = s.drop_last();
        assert(p[0] == s[0]);
        assert forall|i: int| 0 <= i < p.len() implies #[trigger] is_digit_char(p[i]) by {
            assert(p[i] == s[i]);
        }
        lemma_decode_positive(p);
        if p.len() == 1 {
            assert(p[0] == s[0]);
        }
    }
}

/// A leading `'0'` does not change the value of a code: `"00z"` reads as
/// `"z"`.
pub proof fn lemma_decode_leading_zero(s: Seq<char>)
    ensures
        spec_decode(seq!['0'] + s) == spec_decode(s),
    decreases s.len(),
{
    let t = seq!['0'] + s;
    if s.len() == 0 {
        assert(t =~= seq!['0']);
        assert(t.drop_last() =~= Seq::<char>::empty());
        assert(spec_decode(t.drop_last()) == 0);
    } else {
        assert(t.drop_last() =~= seq!['0'] + s.drop_last());
        assert(t.last() == s.last());
        lemma_decode_leading_zero(s.drop_last());
    }
}

/// Distinct numbers get distinct codes.
pub proof fn lemma_encode_injective(a: nat, b: nat)
    requires
        spec_encode(a) == spec_encode(b),
    ensures
        a == b,
{
    lemma_decode_encode(a);
    lemma_decode_encode(b);
}

/// The value of a prefix never exceeds the value of the whole.
proof fn lemma_decode_prefix_le(s: Seq<char>, i: int)
    requires
        0 <= i <= s.len(),
    ensures
        spec_decode(s.take(i)) <= spec_decode(s),
    decreases s.len() - i,
{
    if i < s.len() {
        let t = s.take(i + 1);
        lemma_decode_prefix_le(s, i + 1);
        assert(t.drop_last() =~= s.take(i));
        assert(spec_decode(t) >= spec_decode(s.take(i))) by (nonlinear_arith)
            requires
                spec_decode(t) == spec_decode(s.take(i)) * 62 + char_value(t.last()),
        ;
    } else {
        assert(s.take(i) =~= s);
    }
}

/// `x` comes before `y` in lexicographic order: at the first position where
/// they differ, the symbol of `x` has the smaller code point.
pub open spec fn lex_less(x: Seq<char>, y: Seq<char>) -> bool {
    exists|i: int|
        0 <= i < x.len() && i < y.len() && x.take(i) == y.take(i) && (x[i] as u32) < (
        y[i] as u32)
}

/// `x` comes before `y` in length-then-lexicographic order.
pub open spec fn shortlex_less(x: Seq<char>, y: Seq<char>) -> bool {
    x.len() < y.len() || (x.len() == y.len() && lex_less(x, y))
}

/// Appending one symbol to each of two sequences keeps their order.
proof fn lemma_shortlex_push(x: Seq<char>, y: Seq<char>, a: char, b: char)
    requires
        shortlex_less(x, y),
    ensures
        shortlex_less(x.push(a), y.push(b)),
{
    if x.len() == y.len() {
        let i = choose|i: int|
            0 <= i < x.len() && i < y.len() && x.take(i) == y.take(i) && (x[i] as u32) < (
            y[i] as u32);
        assert(x.push(a).take(i) =~= x.take(i));
        assert(y.push(b).take(i) =~= y.take(i));
        assert(x.push(a)[i] == x[i]);
        assert(y.push(b)[i] == y[i]);
    }
}

/// Encoding is strictly increasing in length-then-lexicographic order: a
/// smaller number has a shorter code, or a code of the same length that
/// comes first alphabetically (the alphabet is in code-point order).
pub proof fn lemma_encode_increasing(a: nat, b: nat)
    requires
        a < b,
    ensures
        shortlex_less(spec_encode(a), spec_encode(b)),
    decreases b,
{
    if b < 62 {
        let x = spec_encode(a);
        let y = spec_encode(b);
        assert(x.take(0) =~= y.take(0));
        assert((x[0] as u32) < (y[0] as u32));
    } else if a < 62 {
        lemma_encode_canonical(b / 62);
        assert(spec_encode(b).len() == spec_encode(b / 62).len() + 1);
    } else {
        let qa = a / 62;
        let qb = b / 62;
        assert(qa <= qb);
        if qa < qb {
            lemma_encode_increasing(qa, qb);
            lemma_shortlex_push(
                spec_encode(qa),
                spec_encode(qb),
                digit_char((a % 62) as int),
                digit_char((b % 62) as int),
            );
        } else {
            assert(a % 62 < b % 62);
            let p = spec_encode(qa);
            let x = spec_encode(a);
            let y = spec_encode(b);
            let i = p.len() as int;
            assert(x.take(i) =~= p);
            assert(y.take(i) =~= p);
            assert(x[i] == digit_char((a % 62) as int));
            assert(y[i] == digit_char((b % 62) as int));
            assert((x[i] as u32) < (y[i] as u32));
        }
    }
}

/// The one-symbol string of digit `d`.
fn digit_str(d: u64) -> (r: &'static str)
    requires
        d < 62,
    ensures
        r@ == seq![digit_char(d as int)],
{
    proof {
        lemma_alphabet();
    }
    let r = ALPHABET.substring_char(d as usize, (d + 1) as usize);
    assert(r@ =~= seq![digit_char(d as int)]);
    r
}

/// The digit value of an alphabet symbol.
fn char_digit(c: char) -> (d: u64)
    requires
        is_digit_char(c),
    ensures
        d == char_value(c),
        d < 62,
{
    if c <= '9' {
        (c as u32 - '0' as u32) as u64
    } else if c <= 'Z' {
        (c as u32 - 'A' as u32 + 10) as u64
    } else {
        (c as u32 - 'a' as u32 + 36) as u64
    }
}

/// Writes `num` in base 62 with the symbols of `ALPHABET`, most significant
/// digit first; zero is `"0"`.
pub fn encode(num: u64) -> (res: String)
    ensures
        res@ == spec_encode(num as nat),
    decreases num,
{
    if num < BASE {
        String::from_str(digit_str(num))
    } else {
        let mut res = encode(num / BASE);
        res.append(digit_str(num % BASE));
        res
    }
}

/// Reads a base-62 code, most significant digit first, back into a number.
/// Every symbol must belong to `ALPHABET` and the value must fit in a `u64`.
pub fn decode(input: &str) -> (num: u64)
    requires
        all_digit_chars(input@),
        spec_decode(input@) <= u64::MAX,
    ensures
        num == spec_decode(input@),
{
    let len = input.unicode_len();
    let mut num: u64 = 0;
    let mut i: usize = 0;
    assert(input@.take(0) =~= Seq::<char>::empty());
    while i < len
        invariant
            len == input@.len(),
            0 <= i <= len,
            all_digit_chars(input@),
            spec_decode(input@) <= u64::MAX,
            num == spec_decode(input@.take(i as int)),
        decreases len - i,
    {
        let c = input.get_char(i);
        assert(is_digit_char(input@[i as int]));
        let d = char_digit(c);
        proof {
            let t = input@.take(i + 1);
            assert(t.drop_last() =~= input@.take(i as int));
            assert(t.last() == c);
            lemma_decode_prefix_le(input@, i + 1);
        }
        num = num * BASE + d;
        i = i + 1;
    }
    assert(input@.take(len as int) =~= input@);
    num
}

} // verus!
