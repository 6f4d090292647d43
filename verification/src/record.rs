//! The text form of a game record: a seed and the human's moves, as decimal
//! numbers separated by commas.

use vstd::prelude::*;
use vstd::string::*;
use vstd::utf8::*;

verus! {

/// The byte `,`, which separates the tokens of a record.
pub const COMMA: u8 = 44;

/// The byte `+`, which may stand before a number.
pub const PLUS: u8 = 43;

/// The byte `0`.
pub const ZERO: u8 = 48;

/// The byte `9`.
pub const NINE: u8 = 57;

/// `b` is a decimal digit.
pub open spec fn is_digit(b: u8) -> bool {
    ZERO <= b <= NINE
}

/// Every byte of `s` is a decimal digit.
pub open spec fn all_digits(s: Seq<u8>) -> bool {
    forall|i: int| 0 <= i < s.len() ==> is_digit(#[trigger] s[i])
}

/// The number that the digits `s` write in base ten.
pub open spec fn digits_value(s: Seq<u8>) -> nat
    decreases s.len(),
{
    if s.len() == 0 {
        0
    } else {
        digits_value(s.drop_last()) * 10 + (s.last() - ZERO) as nat
    }
}

/// The token without its leading `+`, if it has one.
pub open spec fn unsigned_part(token: Seq<u8>) -> Seq<u8> {
    if token.len() > 0 && token[0] == PLUS {
        token.skip(1)
    } else {
        token
    }
}

/// The token is an optional `+` followed by one or more decimal digits and
/// nothing else.
pub open spec fn is_number(token: Seq<u8>) -> bool {
    unsigned_part(token).len() > 0 && all_digits(unsigned_part(token))
}

/// The number that a token writes.
pub open spec fn number_value(token: Seq<u8>) -> nat {
    digits_value(unsigned_part(token))
}

/// The seed that a token stands for: its number, where that fits in 64 bits.
pub open spec fn seed_of(token: Seq<u8>) -> Option<u64> {
    if is_number(token) && number_value(token) <= u64::MAX {
        Some(number_value(token) as u64)
    } else {
        None
    }
}

/// The move that a token stands for: its number, where that is a cell index.
pub open spec fn move_of(token: Seq<u8>) -> Option<usize> {
    if is_number(token) && number_value(token) < 9 {
        Some(number_value(token) as usize)
    } else {
        None
    }
}

/// The length of the first token of `s`: the index of its first comma, or its
/// length where it has none.
pub open spec fn token_len(s: Seq<u8>) -> int
    decreases s.len(),
{
    if s.len() == 0 || s[0] == COMMA {
        0
    } else {
        1 + token_len(s.skip(1))
    }
}

/// The tokens of `s`: the parts between its commas. A text with `n` commas has
/// `n + 1` tokens, some of which may be empty.
pub open spec fn split(s: Seq<u8>) -> Seq<Seq<u8>>
    decreases s.len(),
{
    let k = token_len(s);
    if 0 <= k < s.len() {
        seq![s.take(k)].add(split(s.skip(k + 1)))
    } else {
        seq![s]
    }
}

/// The tokens that follow position `at` of `s`, where `at` is either the place
/// of a comma or the end of `s`.
pub open spec fn tokens_after(s: Seq<u8>, at: int) -> Seq<Seq<u8>> {
    if 0 <= at < s.len() {
        split(s.skip(at + 1))
    } else {
        Seq::empty()
    }
}

/// `token_len(s)` is `k` exactly when no comma stands before `k` and `k` is a
/// comma or the end.
pub proof fn lemma_token_len(s: Seq<u8>, k: int)
    requires
        0 <= k <= s.len(),
        forall|j: int| 0 <= j < k ==> s[j] != COMMA,
        k < s.len() ==> s[k] == COMMA,
    ensures
        token_len(s) == k,
    decreases k,
{
    if k > 0 {
        let t = s.skip(1);
        assert forall|j: int| 0 <= j < k - 1 implies t[j] != COMMA by {
            assert(t[j] == s[j + 1]);
        }
        lemma_token_len(t, k - 1);
    }
}

/// A prefix of a digit string writes a number no larger than the whole.
pub proof fn lemma_prefix_value(s: Seq<u8>, k: int)
    requires
        0 <= k <= s.len(),
    ensures
        digits_value(s.take(k)) <= digits_value(s),
    decreases s.len() - k,
{
    if k == s.len() {
        assert(s.take(k) =~= s);
    } else {
        let t = s.drop_last();
        assert(t.take(k) =~= s.take(k));
        lemma_prefix_value(t, k);
    }
}

/// The end of the token that starts at `start`: the index of the next comma,
/// or the length of the text.
pub fn token_end(text: &[u8], start: usize) -> (end: usize)
    requires
        start <= text@.len(),
    ensures
        start <= end <= text@.len(),
        end - start == token_len(text@.skip(start as int)),
{
    let mut end: usize = start;
    while end < text.len() && text[end] != COMMA
        invariant
            start <= end <= text@.len(),
            forall|j: int| start <= j < end ==> text@[j] != COMMA,
        decreases text@.len() - end,
    {
        end += 1;
    }
    proof {
        lemma_token_len(text@.skip(start as int), end - start);
    }
    end
}

/// Reads a token as an unsigned 64-bit number.
pub fn parse_seed(token: &[u8]) -> (r: Option<u64>)
    ensures
        r == seed_of(token@),
{
    let n: usize = token.len();
    let first: usize = if n > 0 && token[0] == PLUS {
        1
    } else {
        0
    };
    if first == n {
        return None;
    }
    let ghost digits = unsigned_part(token@);
    assert(digits =~= token@.skip(first as int));
    let mut acc: u64 = 0;
    let mut i: usize = first;
    while i < n
        invariant
            first <= i <= n,
            n == token@.len(),
            digits == token@.skip(first as int),
            digits == unsigned_part(token@),
            all_digits(digits.take(i - first)),
            acc == digits_value(digits.take(i - first)),
        decreases n - i,
    {
        let b: u8 = token[i];
        assert(b == digits[i - first]);
        if b < ZERO || b > NINE {
            assert(!is_digit(digits[i - first]));
            return None;
        }
        let d: u64 = (b - ZERO) as u64;
        proof {
            let next = digits.take(i - first + 1);
            assert(next.drop_last() =~= digits.take(i - first));
            assert(next.last() == b);
            assert(all_digits(next)) by {
                assert forall|j: int| 0 <= j < next.len() implies is_digit(#[trigger] next[j]) by {
                    if j < i - first {
                        assert(digits.take(i - first)[j] == next[j]);
                    }
                }
            }
            assert(digits_value(next) == acc * 10 + d);
            lemma_prefix_value(digits, i - first + 1);
        }
        if acc > (u64::MAX - d) / 10 {
            return None;
        }
        acc = acc * 10 + d;
        i += 1;
    }
    assert(digits.take(n - first) =~= digits);
    Some(acc)
}

/// Reads a token as a cell index.
pub fn parse_move(token: &[u8]) -> (r: Option<usize>)
    ensures
        r == move_of(token@),
{
    match parse_seed(token) {
        Some(v) => if v < 9 {
            Some(v as usize)
        } else {
            None
        },
        None => None,
    }
}

/// A finished match as it is written down: the seed of the generator and the
/// human's moves in the order played.
pub struct GameRound {
    pub seed: u64,
    pub player_moves: Vec<usize>,
}

/// The digits of `n` in base ten, without leading zeros.
pub open spec fn decimal(n: nat) -> Seq<u8>
    decreases n,
{
    if n < 10 {
        seq![(ZERO + n) as u8]
    } else {
        decimal(n / 10).push((ZERO + n % 10) as u8)
    }
}

/// Each move in decimal, with a comma before it.
pub open spec fn moves_text(moves: Seq<usize>) -> Seq<u8>
    decreases moves.len(),
{
    if moves.len() == 0 {
        Seq::empty()
    } else {
        moves_text(moves.drop_last()).push(COMMA).add(decimal(moves.last() as nat))
    }
}

/// The bytes of a record: the seed in decimal, then each move in decimal with
/// a comma before it.
pub open spec fn record_text(seed: u64, moves: Seq<usize>) -> Seq<u8> {
    decimal(seed as nat).add(moves_text(moves))
}

/// The characters that ASCII bytes stand for.
pub open spec fn as_chars(bytes: Seq<u8>) -> Seq<char> {
    Seq::new(bytes.len(), |i: int| bytes[i] as char)
}

/// Appends the decimal digits of `n`.
pub fn push_decimal(out: &mut Vec<u8>, n: u64)
    ensures
        final(out)@ == old(out)@.add(decimal(n as nat)),
    decreases n,
{
    if n >= 10 {
        push_decimal(out, n / 10);
    }
    out.push(ZERO + (n % 10) as u8);
    assert(out@ =~= old(out)@.add(decimal(n as nat)));
}

/// Writes a seed and the human's moves as the bytes of a record.
pub fn encode_record(seed: u64, moves: &[usize]) -> (bytes: Vec<u8>)
    ensures
        bytes@ == record_text(seed, moves@),
{
    let mut bytes: Vec<u8> = Vec::new();
    push_decimal(&mut bytes, seed);
    let mut i: usize = 0;
    while i < moves.len()
        invariant
            i <= moves@.len(),
            bytes@ == record_text(seed, moves@.take(i as int)),
        decreases moves@.len() - i,
    {
        let ghost before = bytes@;
        bytes.push(COMMA);
        push_decimal(&mut bytes, moves[i] as u64);
        proof {
            let now = moves@.take(i + 1);
            assert(now.drop_last() =~= moves@.take(i as int));
            assert(bytes@ =~= record_text(seed, now));
        }
        i += 1;
    }
    assert(moves@.take(i as int) =~= moves@);
    bytes
}

/// A byte of a record is a digit or a comma.
pub open spec fn is_record_byte(b: u8) -> bool {
    is_digit(b) || b == COMMA
}

/// The decimal form of a number holds digits only, and at least one.
pub proof fn lemma_decimal_digits(n: nat)
    ensures
        decimal(n).len() > 0,
        all_digits(decimal(n)),
    decreases n,
{
    if n >= 10 {
        lemma_decimal_digits(n / 10);
    }
}

/// A record is written with digits and commas only.
pub proof fn lemma_record_bytes(seed: u64, moves: Seq<usize>)
    ensures
        forall|i: int|
            0 <= i < record_text(seed, moves).len() ==> is_record_byte(
                #[trigger] record_text(seed, moves)[i],
            ),
    decreases moves.len(),
{
    lemma_decimal_digits(seed as nat);
    if moves.len() > 0 {
        lemma_record_bytes(seed, moves.drop_last());
        lemma_decimal_digits(moves.last() as nat);
        let shorter = record_text(seed, moves.drop_last());
        let last = decimal(moves.last() as nat);
        assert(record_text(seed, moves) =~= shorter.push(COMMA).add(last));
        assert forall|i: int| 0 <= i < record_text(seed, moves).len() implies is_record_byte(
            #[trigger] record_text(seed, moves)[i],
        ) by {
            if i < shorter.len() {
                assert(record_text(seed, moves)[i] == shorter[i]);
            } else if i > shorter.len() {
                assert(record_text(seed, moves)[i] == last[i - shorter.len() - 1]);
            }
        }
    } else {
        assert(record_text(seed, moves) =~= decimal(seed as nat));
    }
}

/// The one-character text of a digit or a comma.
pub(crate) fn byte_text(b: u8) -> (s: &'static str)
    requires
        is_record_byte(b),
    ensures
        s@ == seq![b as char],
{
    proof {
        reveal_strlit("0");
        reveal_strlit("1");
        reveal_strlit("2");
        reveal_strlit("3");
        reveal_strlit("4");
        reveal_strlit("5");
        reveal_strlit("6");
        reveal_strlit("7");
        reveal_strlit("8");
        reveal_strlit("9");
        reveal_strlit(",");
    }
    let s: &'static str = match b {
        48 => "0",
        49 => "1",
        50 => "2",
        51 => "3",
        52 => "4",
        53 => "5",
        54 => "6",
        55 => "7",
        56 => "8",
        57 => "9",
        _ => ",",
    };
    assert(s@ =~= seq![b as char]);
    s
}

/// Writes a seed and the human's moves as the text of a record: the seed in
/// decimal, then each move in decimal with a comma before it. The text is
/// ASCII, so its UTF-8 bytes are the record's bytes.
pub fn format_seed_and_moves(seed: u64, moves: &[usize]) -> (text: String)
    ensures
        text@ == as_chars(record_text(seed, moves@)),
        encode_utf8(text@) == record_text(seed, moves@),
{
    let bytes: Vec<u8> = encode_record(seed, moves);
    proof {
        lemma_record_bytes(seed, moves@);
    }
    let mut text: String = String::new();
    let mut i: usize = 0;
    while i < bytes.len()
        invariant
            i <= bytes@.len(),
            forall|j: int| 0 <= j < bytes@.len() ==> is_record_byte(#[trigger] bytes@[j]),
            text@ == as_chars(bytes@.take(i as int)),
        decreases bytes@.len() - i,
    {
        text.append(byte_text(bytes[i]));
        assert(text@ =~= as_chars(bytes@.take(i + 1)));
        i += 1;
    }
    proof {
        assert(bytes@.take(i as int) =~= bytes@);
        assert(is_ascii_chars(text@));
        is_ascii_chars_encode_utf8(text@);
        assert(encode_utf8(text@) =~= bytes@);
    }
    text
}

/// No byte of `s` is a comma.
pub open spec fn comma_free(s: Seq<u8>) -> bool {
    forall|i: int| 0 <= i < s.len() ==> #[trigger] s[i] != COMMA
}

/// The tokens of the record of `seed` and `moves`: each number in decimal.
pub open spec fn record_tokens(seed: u64, moves: Seq<usize>) -> Seq<Seq<u8>> {
    Seq::new(
        moves.len() + 1,
        |i: int|
            if i == 0 {
                decimal(seed as nat)
            } else {
                decimal(moves[i - 1] as nat)
            },
    )
}

/// The first token ends at the first comma of the text, or at its end where
/// it has none.
pub proof fn lemma_first_comma(s: Seq<u8>)
    ensures
        0 <= token_len(s) <= s.len(),
        forall|j: int| 0 <= j < token_len(s) ==> #[trigger] s[j] != COMMA,
        token_len(s) < s.len() ==> s[token_len(s)] == COMMA,
    decreases s.len(),
{
    if !(s.len() == 0 || s[0] == COMMA) {
        let t = s.skip(1);
        lemma_first_comma(t);
        assert forall|j: int| 0 <= j < token_len(s) implies #[trigger] s[j] != COMMA by {
            if j > 0 {
                assert(s[j] == t[j - 1]);
            }
        }
        if token_len(s) < s.len() {
            assert(s[token_len(s)] == t[token_len(t)]);
        }
    }
}

/// A text without a comma is one token.
pub proof fn lemma_split_single(s: Seq<u8>)
    requires
        comma_free(s),
    ensures
        split(s) == seq![s],
{
    lemma_token_len(s, s.len() as int);
}

/// Appending a comma and a token to a text appends that token to its tokens.
pub proof fn lemma_split_push(s: Seq<u8>, token: Seq<u8>)
    requires
        comma_free(token),
    ensures
        split(s.push(COMMA).add(token)) == split(s).push(token),
    decreases s.len(),
{
    let longer = s.push(COMMA).add(token);
    let k = token_len(s);
    lemma_first_comma(s);
    assert forall|j: int| 0 <= j < k implies longer[j] != COMMA by {
        assert(longer[j] == s[j]);
    }
    assert(longer[k] == COMMA);
    lemma_token_len(longer, k);
    if k < s.len() {
        let rest = s.skip(k + 1);
        assert(longer.skip(k + 1) =~= rest.push(COMMA).add(token));
        lemma_split_push(rest, token);
        assert(longer.take(k) =~= s.take(k));
        assert(split(longer) =~= split(s).push(token));
    } else {
        assert(longer.take(k) =~= s);
        assert(longer.skip(k + 1) =~= token);
        lemma_split_single(token);
        assert(split(longer) =~= split(s).push(token));
    }
}

/// Reading the decimal form of a number gives the number back.
pub proof fn lemma_decimal_value(n: nat)
    ensures
        is_number(decimal(n)),
        number_value(decimal(n)) == n,
        comma_free(decimal(n)),
    decreases n,
{
    lemma_decimal_digits(n);
    let d = decimal(n);
    assert(is_digit(d[0]));
    assert(unsigned_part(d) == d);
    assert forall|i: int| 0 <= i < d.len() implies #[trigger] d[i] != COMMA by {
        assert(is_digit(d[i]));
    }
    if n >= 10 {
        lemma_decimal_value(n / 10);
        lemma_decimal_digits(n / 10);
        let shorter = decimal(n / 10);
        assert(is_digit(shorter[0]));
        assert(unsigned_part(shorter) == shorter);
        assert(d.drop_last() =~= shorter);
        assert(d.last() == (ZERO + n % 10) as u8);
        assert(digits_value(d) == digits_value(shorter) * 10 + n % 10);
    } else {
        assert(d.drop_last() =~= Seq::<u8>::empty());
        assert(digits_value(d.drop_last()) == 0);
        assert(d.last() == (ZERO + n) as u8);
        assert(digits_value(d) == n);
    }
}

/// What is written is what is read: the text of a record splits into the
/// decimal forms of its seed and moves, the first token reads as the seed, and
/// each further token reads as its move exactly when that move is a cell index.
pub proof fn lemma_record_round_trip(seed: u64, moves: Seq<usize>)
    ensures
        split(record_text(seed, moves)) == record_tokens(seed, moves),
        seed_of(record_tokens(seed, moves)[0]) == Some(seed),
        forall|i: int|
            0 <= i < moves.len() ==> #[trigger] move_of(record_tokens(seed, moves)[i + 1]) == (
            if moves[i] < 9 {
                Some(moves[i])
            } else {
                None
            }),
    decreases moves.len(),
{
    lemma_decimal_value(seed as nat);
    assert forall|i: int| 0 <= i < moves.len() implies #[trigger] move_of(
        record_tokens(seed, moves)[i + 1],
    ) == (if moves[i] < 9 {
        Some(moves[i])
    } else {
        None
    }) by {
        lemma_decimal_value(moves[i] as nat);
    }
    if moves.len() == 0 {
        assert(record_text(seed, moves) =~= decimal(seed as nat));
        lemma_split_single(decimal(seed as nat));
        assert(split(record_text(seed, moves)) =~= record_tokens(seed, moves));
    } else {
        let shorter = moves.drop_last();
        let last = decimal(moves.last() as nat);
        lemma_record_round_trip(seed, shorter);
        lemma_decimal_value(moves.last() as nat);
        assert(record_text(seed, moves) =~= record_text(seed, shorter).push(COMMA).add(last));
        lemma_split_push(record_text(seed, shorter), last);
        assert(record_tokens(seed, shorter).push(last) =~= record_tokens(seed, moves));
    }
}

} // verus!
