//! Building text: characters, literals and decimal numbers appended to a
//! `String`.
use vstd::prelude::*;

verus! {

/// Append one character to `s` (std's `String::push`).
#[verifier::external_body]
pub(crate) fn push_char(s: &mut String, c: char)
    ensures
        final(s)@ == old(s)@.push(c),
{
    s.push(c);
}

/// The decimal digit for `d`, which is below ten.
pub open spec fn digit_char(d: nat) -> char {
    if d == 0 {
        '0'
    } else if d == 1 {
        '1'
    } else if d == 2 {
        '2'
    } else if d == 3 {
        '3'
    } else if d == 4 {
        '4'
    } else if d == 5 {
        '5'
    } else if d == 6 {
        '6'
    } else if d == 7 {
        '7'
    } else if d == 8 {
        '8'
    } else {
        '9'
    }
}

/// `n` written in decimal, without sign or leading zeros.
pub open spec fn decimal(n: nat) -> Seq<char>
    decreases n,
{
    if n < 10 {
        seq![digit_char(n)]
    } else {
        decimal(n / 10).push(digit_char(n % 10))
    }
}

/// `n` written in decimal, padded on the left with zeros to `width` characters.
pub open spec fn decimal_padded(n: nat, width: nat) -> Seq<char> {
    let pad: nat = if width > decimal(n).len() { (width - decimal(n).len()) as nat } else { 0 };
    Seq::new(pad, |i: int| '0') + decimal(n)
}

fn digit(d: u64) -> (c: char)
    requires
        d < 10,
    ensures
        c == digit_char(d as nat),
{
    if d == 0 {
        '0'
    } else if d == 1 {
        '1'
    } else if d == 2 {
        '2'
    } else if d == 3 {
        '3'
    } else if d == 4 {
        '4'
    } else if d == 5 {
        '5'
    } else if d == 6 {
        '6'
    } else if d == 7 {
        '7'
    } else if d == 8 {
        '8'
    } else {
        '9'
    }
}

/// Append `n` in decimal.
pub fn push_decimal(s: &mut String, n: u64)
    ensures
        final(s)@ == old(s)@ + decimal(n as nat),
    decreases n,
{
    if n >= 10 {
        push_decimal(s, n / 10);
    }
    push_char(s, digit(n % 10));
    proof {
        if n >= 10 {
            assert(decimal(n as nat) == decimal((n / 10) as nat).push(digit_char((n % 10) as nat)));
        }
    }
}

/// `n` in decimal, led by a minus sign when it is negative.
pub open spec fn signed_decimal(n: int) -> Seq<char> {
    if n < 0 {
        seq!['-'] + decimal((-n) as nat)
    } else {
        decimal(n as nat)
    }
}

fn push_decimal_wide(s: &mut String, n: u128)
    ensures
        final(s)@ == old(s)@ + decimal(n as nat),
    decreases n,
{
    if n >= 10 {
        push_decimal_wide(s, n / 10);
    }
    push_char(s, digit((n % 10) as u64));
    proof {
        if n >= 10 {
            assert(decimal(n as nat) == decimal((n / 10) as nat).push(digit_char((n % 10) as nat)));
        }
    }
}

/// Append `n` in decimal, with a minus sign when it is negative.
pub fn push_signed(s: &mut String, n: i128)
    ensures
        final(s)@ == old(s)@ + signed_decimal(n as int),
{
    if n < 0 {
        let ghost start = s@;
        push_char(s, '-');
        let magnitude: u128 = (-(n + 1)) as u128 + 1;
        push_decimal_wide(s, magnitude);
        proof {
            vstd::seq_lib::lemma_concat_associative(start, seq!['-'], decimal((-n) as nat));
        }
    } else {
        push_decimal_wide(s, n as u128);
    }
}

/// The number of decimal digits of `n`.
pub fn decimal_len(n: u64) -> (len: usize)
    ensures
        len == decimal(n as nat).len(),
        1 <= len <= 20,
    decreases n,
{
    if n >= 10 {
        let l = decimal_len(n / 10);
        proof {
            lemma_decimal_len_bound(n as nat, 20);
        }
        l + 1
    } else {
        1
    }
}

/// Ten to the power `k`.
pub open spec fn pow10(k: nat) -> nat
    decreases k,
{
    if k == 0 {
        1
    } else {
        10 * pow10((k - 1) as nat)
    }
}

/// A number below `10^k` has at most `k` digits; every `u64` is below `10^20`.
proof fn lemma_decimal_len_bound(n: nat, k: nat)
    requires
        n <= u64::MAX,
        k == 20,
    ensures
        decimal(n).len() <= k,
{
    reveal_with_fuel(pow10, 21);
    assert(pow10(20) == 100_000_000_000_000_000_000nat);
    lemma_decimal_len_below(n, 20);
}

proof fn lemma_decimal_len_below(n: nat, k: nat)
    requires
        k >= 1,
        n < pow10(k),
    ensures
        decimal(n).len() <= k,
    decreases k,
{
    if n >= 10 {
        assert(k >= 2) by {
            if k == 1 {
                reveal_with_fuel(pow10, 2);
            }
        }
        assert(n / 10 < pow10((k - 1) as nat)) by (nonlinear_arith)
            requires
                n < pow10(k),
                pow10(k) == 10 * pow10((k - 1) as nat),
        ;
        lemma_decimal_len_below(n / 10, (k - 1) as nat);
    }
}

/// Append `n` in decimal, padded on the left with zeros to `width` characters.
pub fn push_decimal_padded(s: &mut String, n: u64, width: usize)
    ensures
        final(s)@ == old(s)@ + decimal_padded(n as nat, width as nat),
{
    let len = decimal_len(n);
    let ghost start = s@;
    let mut k: usize = len;
    while k < width
        invariant
            len <= k <= width || (width < len && k == len),
            len == decimal(n as nat).len(),
            s@ == start + Seq::new((k - len) as nat, |i: int| '0'),
        decreases width - k,
    {
        push_char(s, '0');
        k += 1;
        proof {
            assert(s@ =~= start + Seq::new((k - len) as nat, |i: int| '0'));
        }
    }
    let ghost zeros = s@;
    push_decimal(s, n);
    proof {
        let pad: nat = if width > len { (width - len) as nat } else { 0 };
        assert(Seq::new((k - len) as nat, |i: int| '0') =~= Seq::new(pad, |i: int| '0'));
        assert(s@ =~= start + decimal_padded(n as nat, width as nat));
    }
}

/// The characters of an optional text.
pub open spec fn opt_view(s: Option<String>) -> Option<Seq<char>> {
    match s {
        Some(v) => Some(v@),
        None => None,
    }
}

/// A copy of an optional text.
pub fn clone_opt(s: &Option<String>) -> (res: Option<String>)
    ensures
        opt_view(res) == opt_view(*s),
{
    match s {
        Some(v) => Some(v.clone()),
        None => None,
    }
}

/// A word of space-separated text: a literal or a whole number.
pub enum Token<'a> {
    Word(&'a str),
    Int(i128),
}

/// The characters a token stands for.
pub open spec fn token_text<'a>(t: Token<'a>) -> Seq<char> {
    match t {
        Token::Word(w) => w@,
        Token::Int(n) => signed_decimal(n as int),
    }
}

/// The words joined by single spaces.
pub open spec fn words(ws: Seq<Seq<char>>) -> Seq<char>
    decreases ws.len(),
{
    if ws.len() == 0 {
        Seq::empty()
    } else if ws.len() == 1 {
        ws[0]
    } else {
        words(ws.drop_last()) + seq![' '] + ws.last()
    }
}

/// Append the tokens' text, separated by single spaces.
pub fn push_words(s: &mut String, tokens: &Vec<Token>)
    ensures
        final(s)@ == old(s)@ + words(tokens@.map_values(|t: Token| token_text(t))),
{
    let ghost start = s@;
    let ghost ws = tokens@.map_values(|t: Token| token_text(t));
    let mut i: usize = 0;
    while i < tokens.len()
        invariant
            i <= tokens@.len(),
            ws == tokens@.map_values(|t: Token| token_text(t)),
            s@ == start + words(ws.take(i as int)),
        decreases tokens@.len() - i,
    {
        let ghost before = s@;
        if i > 0 {
            push_char(s, ' ');
        }
        match &tokens[i] {
            Token::Word(w) => s.append(w),
            Token::Int(n) => push_signed(s, *n),
        }
        proof {
            let piece = ws[i as int];
            assert(piece == token_text(tokens@[i as int]));
            if i == 0 {
                assert(ws.take(1) =~= seq![piece]);
                assert(words(ws.take(0)) =~= Seq::<char>::empty());
                assert(s@ =~= start + words(ws.take(1)));
            } else {
                assert(ws.take(i + 1).drop_last() =~= ws.take(i as int));
                assert(ws.take(i + 1).last() == piece);
                assert(words(ws.take(i + 1)) == words(ws.take(i as int)) + seq![' '] + piece);
                assert(s@ =~= start + words(ws.take(i + 1)));
            }
        }
        i += 1;
    }
    proof {
        assert(ws.take(tokens@.len() as int) =~= ws);
    }
}

} // verus!
