use vstd::prelude::*;

verus! {

/// An upper-case hexadecimal digit.
pub open spec fn is_hex_digit(c: char) -> bool {
    ('0' <= c <= '9') || ('A' <= c <= 'F')
}

/// The value of the hexadecimal digit `c`.
pub open spec fn digit_value(c: char) -> int {
    if '0' <= c <= '9' {
        c as u32 - '0' as u32
    } else {
        c as u32 - 'A' as u32 + 10
    }
}

/// The number that the digits of `t` denote in base 16.
pub open spec fn hex_value(t: Seq<char>) -> int
    decreases t.len(),
{
    if t.len() == 0 {
        0
    } else {
        hex_value(t.drop_last()) * 16 + digit_value(t.last())
    }
}

/// Whether `v` is a Unicode scalar value: not a surrogate, at most U+10FFFF.
pub open spec fn is_scalar_value(v: int) -> bool {
    (0 <= v < 0xD800) || (0xE000 <= v <= 0x10FFFF)
}

/// Whether every character of `t` is a hexadecimal digit.
pub open spec fn all_hex(t: Seq<char>) -> bool {
    forall|j: int| 0 <= j < t.len() ==> is_hex_digit(#[trigger] t[j])
}

/// The character that the hexadecimal token `t` names, if it names one.
pub open spec fn decode_token(t: Seq<char>) -> Option<char> {
    let v = hex_value(t);
    if all_hex(t) && is_scalar_value(v) {
        Some((v as u32) as char)
    } else {
        None
    }
}

/// The characters that the tokens name, in order, if each names one.
pub open spec fn decode_all(ts: Seq<Seq<char>>) -> Option<Seq<char>>
    decreases ts.len(),
{
    if ts.len() == 0 {
        Some(Seq::empty())
    } else {
        match (decode_all(ts.drop_last()), decode_token(ts.last())) {
            (Some(a), Some(c)) => Some(a.push(c)),
            _ => None,
        }
    }
}

/// Relies on `char::from_u32`: the character of a Unicode scalar value, `None` for others.
#[verifier::external_body]
fn char_from_u32(v: u32) -> (r: Option<char>)
    ensures
        r == (if is_scalar_value(v as int) {
            Some(v as char)
        } else {
            None
        }),
{
    std::char::from_u32(v)
}

proof fn lemma_hex_value_prefix(t: Seq<char>, i: int)
    requires
        0 <= i <= t.len(),
        all_hex(t),
    ensures
        hex_value(t.take(i)) <= hex_value(t),
        0 <= hex_value(t.take(i)),
    decreases t.len(),
{
    if i < t.len() {
        let d = t.drop_last();
        assert(d.take(i) =~= t.take(i));
        lemma_hex_value_prefix(d, i);
        lemma_hex_value_prefix(d, d.len() as int);
        assert(d.take(d.len() as int) =~= d);
    } else {
        assert(t.take(i) =~= t);
        if t.len() > 0 {
            let d = t.drop_last();
            lemma_hex_value_prefix(d, d.len() as int);
            assert(d.take(d.len() as int) =~= d);
        }
    }
}

/// The character that the hexadecimal token `t` names, if it names one.
pub fn decode_token_exec(t: &Vec<char>) -> (r: Option<char>)
    ensures
        r == decode_token(t@),
{
    let mut v: u32 = 0;
    let mut i: usize = 0;
    while i < t.len()
        invariant
            i <= t.len(),
            forall|j: int| 0 <= j < i ==> is_hex_digit(#[trigger] t@[j]),
            v as int == hex_value(t@.take(i as int)),
            v <= 0x10FFFF,
        decreases t.len() - i,
    {
        let c = t[i];
        let d: u32 = if '0' <= c && c <= '9' {
            c as u32 - '0' as u32
        } else if 'A' <= c && c <= 'F' {
            c as u32 - 'A' as u32 + 10
        } else {
            return None;
        };
        assert(t@.take(i + 1).drop_last() =~= t@.take(i as int));
        v = v * 16 + d;
        i += 1;
        if v > 0x10FFFF {
            proof {
                if all_hex(t@) {
                    lemma_hex_value_prefix(t@, i as int);
                    assert(t@.take(t@.len() as int) =~= t@);
                }
            }
            return None;
        }
    }
    assert(t@.take(t@.len() as int) =~= t@);
    char_from_u32(v)
}

/// The characters that the tokens name, if each names one.
pub fn decode_tokens(ts: &Vec<Vec<char>>) -> (r: Option<Vec<char>>)
    ensures
        r matches Some(v) ==> decode_all(ts@.map_values(|t: Vec<char>| t@)) == Some(v@),
        r is None ==> decode_all(ts@.map_values(|t: Vec<char>| t@)) is None,
{
    let ghost tv = ts@.map_values(|t: Vec<char>| t@);
    let mut out: Vec<char> = Vec::new();
    let mut i: usize = 0;
    while i < ts.len()
        invariant
            i <= ts@.len() == tv.len(),
            tv == ts@.map_values(|t: Vec<char>| t@),
            decode_all(tv.take(i as int)) == Some(out@),
        decreases ts.len() - i,
    {
        assert(tv.take(i + 1).drop_last() =~= tv.take(i as int));
        assert(tv.take(i + 1).last() == ts@[i as int]@);
        match decode_token_exec(&ts[i]) {
            Some(c) => out.push(c),
            None => {
                proof {
                    lemma_decode_none_extends(tv, i + 1);
                }
                return None;
            },
        }
        i += 1;
    }
    assert(tv.take(tv.len() as int) =~= tv);
    Some(out)
}

proof fn lemma_decode_none_extends(ts: Seq<Seq<char>>, n: int)
    requires
        0 <= n <= ts.len(),
        decode_all(ts.take(n)) is None,
    ensures
        decode_all(ts) is None,
    decreases ts.len(),
{
    if n == ts.len() {
        assert(ts.take(n) =~= ts);
    } else {
        assert(ts.drop_last().take(n) =~= ts.take(n));
        lemma_decode_none_extends(ts.drop_last(), n);
    }
}

/// The upper-case hexadecimal digits, by value.
pub open spec fn hex_digits() -> Seq<char> {
    seq!['0', '1', '2', '3', '4', '5', '6', '7', '8', '9', 'A', 'B', 'C', 'D', 'E', 'F']
}

/// `n` written in upper-case hexadecimal, without leading zeros.
pub open spec fn to_hex(n: nat) -> Seq<char>
    decreases n,
{
    if n < 16 {
        seq![hex_digits()[n as int]]
    } else {
        to_hex(n / 16).push(hex_digits()[(n % 16) as int])
    }
}

/// A token as the source data writes one: upper-case hexadecimal without leading zeros.
pub open spec fn is_canonical_token(t: Seq<char>) -> bool {
    &&& t.len() > 0
    &&& all_hex(t)
    &&& (t[0] != '0' || t.len() == 1)
}

/// The hexadecimal tokens of the codepoints of `text`.
pub open spec fn encode_all(text: Seq<char>) -> Seq<Seq<char>> {
    text.map_values(|c: char| to_hex(c as u32 as nat))
}

proof fn lemma_digit_round_trip(c: char)
    requires
        is_hex_digit(c),
    ensures
        0 <= digit_value(c) < 16,
        hex_digits()[digit_value(c)] == c,
{
}

proof fn lemma_hex_value_nonneg(t: Seq<char>)
    requires
        all_hex(t),
    ensures
        hex_value(t) >= 0,
    decreases t.len(),
{
    if t.len() > 0 {
        lemma_hex_value_nonneg(t.drop_last());
    }
}

proof fn lemma_leading_digit_positive(t: Seq<char>)
    requires
        t.len() > 0,
        all_hex(t),
        t[0] != '0',
    ensures
        hex_value(t) >= 1,
    decreases t.len(),
{
    let d = t.drop_last();
    if t.len() > 1 {
        lemma_leading_digit_positive(d);
    } else {
        assert(d =~= Seq::<char>::empty());
    }
    lemma_hex_value_nonneg(d);
    lemma_digit_round_trip(t.last());
}

/// Writing the value of a canonical token in hexadecimal gives the token back.
pub proof fn lemma_token_round_trip(t: Seq<char>)
    requires
        is_canonical_token(t),
    ensures
        hex_value(t) >= 0,
        to_hex(hex_value(t) as nat) == t,
    decreases t.len(),
{
    let d = t.drop_last();
    let v = digit_value(t.last());
    lemma_digit_round_trip(t.last());
    lemma_hex_value_nonneg(t);
    if t.len() == 1 {
        assert(d =~= Seq::<char>::empty());
        assert(hex_value(t) == v);
        assert(seq![t.last()] =~= t);
    } else {
        assert(is_canonical_token(d));
        lemma_leading_digit_positive(d);
        lemma_token_round_trip(d);
        let n = hex_value(t);
        let h = hex_value(d);
        assert(n == h * 16 + v);
        assert(n / 16 == h && n % 16 == v && n >= 16) by (nonlinear_arith)
            requires
                n == h * 16 + v,
                0 <= v < 16,
                h >= 1,
        ;
        assert(to_hex(n as nat) == to_hex(h as nat).push(hex_digits()[v]));
        assert(d.push(t.last()) =~= t);
    }
}

/// Decoding canonical tokens and writing each decoded codepoint back in hexadecimal gives
/// the tokens back, for one codepoint as for a sequence.
pub proof fn lemma_round_trip(ts: Seq<Seq<char>>)
    requires
        forall|k: int| 0 <= k < ts.len() ==> is_canonical_token(#[trigger] ts[k]),
        decode_all(ts) is Some,
    ensures
        encode_all(decode_all(ts)->Some_0) == ts,
    decreases ts.len(),
{
    if ts.len() > 0 {
        let d = ts.drop_last();
        lemma_round_trip(d);
        let t = ts.last();
        lemma_token_round_trip(t);
        let text = decode_all(ts)->Some_0;
        assert(text.drop_last() == decode_all(d)->Some_0);
        assert(encode_all(text) =~= ts) by {
            assert forall|k: int| 0 <= k < ts.len() implies encode_all(text)[k] == ts[k] by {
                if k < ts.len() - 1 {
                    assert(encode_all(text)[k] == encode_all(text.drop_last())[k]);
                } else {
                    assert(text[k] == (hex_value(t) as u32) as char);
                }
            }
        }
    } else {
        assert(encode_all(Seq::<char>::empty()) =~= ts);
    }
}

} // verus!
