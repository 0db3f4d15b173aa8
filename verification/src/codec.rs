use vstd::prelude::*;
use crate::envelope::Message;
use crate::strutil::chars_to_string;
use crate::strutil::str_chars;
use crate::strutil::string_push;

verus! {

// --- The canonical text form of an envelope ---------------------------
//
// An envelope is written as a one-line object with three named fields:
//     {"ts":<decimal integer>,"text":"<body>","sender":"<name>"}
// Inside the two quoted fields, a quote or a backslash is preceded by a
// backslash; every other character stands for itself. The decoder below
// accepts exactly this form and rejects everything else, so that
// decoding an encoded envelope recovers it field for field.

/// The object opener and the timestamp key: `{"ts":`.
pub open spec fn lit_ts() -> Seq<char> {
    seq!['{', '"', 't', 's', '"', ':']
}

/// Between the timestamp and the body: `,"text":"`.
pub open spec fn lit_text() -> Seq<char> {
    seq![',', '"', 't', 'e', 'x', 't', '"', ':', '"']
}

/// Between the body and the sender name: `","sender":"`.
pub open spec fn lit_sender() -> Seq<char> {
    seq!['"', ',', '"', 's', 'e', 'n', 'd', 'e', 'r', '"', ':', '"']
}

/// The closing quote and brace: `"}`.
pub open spec fn lit_end() -> Seq<char> {
    seq!['"', '}']
}

/// The decimal digit character for a value below ten.
pub open spec fn digit_char(d: nat) -> char {
    if d == 0 {
        '0'
    } else if d == 1 {
        '1'
    } else if d == 2 {
        '2'
    } else if d == 3 {
        '3'
    } else if d == 4 {
        '4'
    } else if d == 5 {
        '5'
    } else if d == 6 {
        '6'
    } else if d == 7 {
        '7'
    } else if d == 8 {
        '8'
    } else {
        '9'
    }
}

/// Whether a character is a decimal digit.
pub open spec fn is_digit_char(c: char) -> bool {
    c == '0' || c == '1' || c == '2' || c == '3' || c == '4' || c == '5' || c == '6' || c == '7'
        || c == '8' || c == '9'
}

/// The numeric value of a decimal digit character.
pub open spec fn char_digit(c: char) -> nat {
    if c == '0' {
        0
    } else if c == '1' {
        1
    } else if c == '2' {
        2
    } else if c == '3' {
        3
    } else if c == '4' {
        4
    } else if c == '5' {
        5
    } else if c == '6' {
        6
    } else if c == '7' {
        7
    } else if c == '8' {
        8
    } else {
        9
    }
}

/// The decimal digits of `n`, most significant first, without leading
/// zeros.
pub open spec fn dec_digits(n: nat) -> Seq<char>
    decreases n,
{
    if n < 10 {
        seq![digit_char(n)]
    } else {
        dec_digits(n / 10).push(digit_char(n % 10))
    }
}

/// The numeric value of a digit string.
pub open spec fn digits_val(ds: Seq<char>) -> nat
    decreases ds.len(),
{
    if ds.len() == 0 {
        0
    } else {
        digits_val(ds.drop_last()) * 10 + char_digit(ds.last())
    }
}

/// Ten to the `k`.
pub open spec fn pow10(k: nat) -> nat
    decreases k,
{
    if k == 0 {
        1
    } else {
        10 * pow10((k - 1) as nat)
    }
}

/// The signed decimal text of a timestamp.
pub open spec fn spec_i64(ts: int) -> Seq<char> {
    if ts < 0 {
        seq!['-'] + dec_digits((-ts) as nat)
    } else {
        dec_digits(ts as nat)
    }
}

/// One character as it appears inside a quoted field: a quote or a
/// backslash is escaped, everything else is verbatim.
pub open spec fn esc1(c: char) -> Seq<char> {
    if c == '"' || c == '\\' {
        seq!['\\', c]
    } else {
        seq![c]
    }
}

/// A field value as it appears inside a quoted field.
pub open spec fn esc(t: Seq<char>) -> Seq<char>
    decreases t.len(),
{
    if t.len() == 0 {
        Seq::<char>::empty()
    } else {
        esc1(t[0]) + esc(t.subrange(1, t.len() as int))
    }
}

/// The canonical encoding of an envelope.
pub open spec fn spec_env(ts: int, text: Seq<char>, sender: Seq<char>) -> Seq<char> {
    lit_ts() + spec_i64(ts) + lit_text() + esc(text) + lit_sender() + esc(sender) + lit_end()
}

/// Whether `s` is the canonical encoding of some envelope.
pub open spec fn is_canonical_env(s: Seq<char>) -> bool {
    exists|ts: int, t: Seq<char>, sn: Seq<char>|
        i64::MIN <= ts <= i64::MAX && s == #[trigger] spec_env(ts, t, sn)
}

// --- Facts about digit strings ----------------------------------------

/// Every character of `dec_digits(n)` is a digit.
pub proof fn lemma_dec_digits_are_digits(n: nat)
    ensures
        forall|j: int| 0 <= j < dec_digits(n).len() ==> is_digit_char(#[trigger] dec_digits(n)[j]),
        dec_digits(n).len() >= 1,
    decreases n,
{
    if n < 10 {
    } else {
        lemma_dec_digits_are_digits(n / 10);
    }
}

/// A canonical digit string starts with '0' only for the value zero.
pub proof fn lemma_dec_digits_leading(n: nat)
    ensures
        dec_digits(n)[0] == '0' <==> n == 0,
    decreases n,
{
    if n < 10 {
    } else {
        lemma_dec_digits_leading(n / 10);
        assert(dec_digits(n)[0] == dec_digits(n / 10)[0]);
    }
}

/// Reading the digits of `n` back yields `n`.
pub proof fn lemma_digits_val_inverse(n: nat)
    ensures
        digits_val(dec_digits(n)) == n,
    decreases n,
{
    assert(char_digit(digit_char(n % 10)) == n % 10);
    if n < 10 {
        assert(dec_digits(n) == seq![digit_char(n)]);
        assert(dec_digits(n).drop_last() =~= Seq::<char>::empty());
        assert(dec_digits(n).last() == digit_char(n));
        assert(digits_val(dec_digits(n).drop_last()) == 0);
        assert(char_digit(digit_char(n)) == n);
    } else {
        lemma_digits_val_inverse(n / 10);
        assert(dec_digits(n) == dec_digits(n / 10).push(digit_char(n % 10)));
        assert(dec_digits(n).drop_last() =~= dec_digits(n / 10));
        assert(dec_digits(n).last() == digit_char(n % 10));
        assert(digits_val(dec_digits(n)) == (n / 10) * 10 + n % 10);
    }
}

/// Ten to any power is positive.
pub proof fn lemma_pow10_pos(k: nat)
    ensures
        pow10(k) >= 1,
    decreases k,
{
    if k > 0 {
        lemma_pow10_pos((k - 1) as nat);
    }
}

/// Powers of ten grow with the exponent.
pub proof fn lemma_pow10_mono(a: nat, b: nat)
    requires
        a <= b,
    ensures
        pow10(a) <= pow10(b),
    decreases b,
{
    if a < b {
        lemma_pow10_mono(a, (b - 1) as nat);
        lemma_pow10_pos((b - 1) as nat);
    }
}

/// The numeric values of the powers of ten the codec cares about.
pub proof fn lemma_pow10_values()
    ensures
        pow10(1) == 10,
        pow10(18) == 1000000000000000000,
        pow10(19) == 10000000000000000000,
{
    assert(pow10(0) == 1);
    assert(pow10(1) == 10);
    assert(pow10(2) == 100);
    assert(pow10(3) == 1000);
    assert(pow10(4) == 10000);
    assert(pow10(5) == 100000);
    assert(pow10(6) == 1000000);
    assert(pow10(7) == 10000000);
    assert(pow10(8) == 100000000);
    assert(pow10(9) == 1000000000);
    assert(pow10(10) == 10000000000);
    assert(pow10(11) == 100000000000);
    assert(pow10(12) == 1000000000000);
    assert(pow10(13) == 10000000000000);
    assert(pow10(14) == 100000000000000);
    assert(pow10(15) == 1000000000000000);
    assert(pow10(16) == 10000000000000000);
    assert(pow10(17) == 100000000000000000);
    assert(pow10(18) == 1000000000000000000);
    assert(pow10(19) == 10000000000000000000);
}

/// A value below ten to the `k` has at most `k` digits.
pub proof fn lemma_dec_digits_len(n: nat, k: nat)
    requires
        k >= 1,
        n < pow10(k),
    ensures
        dec_digits(n).len() <= k,
    decreases k,
{
    if n < 10 {
    } else {
        assert(pow10(k) == 10 * pow10((k - 1) as nat));
        assert(n / 10 < pow10((k - 1) as nat));
        if k == 1 {
            lemma_pow10_pos(0);
            assert(false);
        }
        lemma_dec_digits_len(n / 10, (k - 1) as nat);
    }
}

// --- Facts about escaped field values ---------------------------------

/// Escaping distributes over concatenation.
pub proof fn lemma_esc_concat(a: Seq<char>, b: Seq<char>)
    ensures
        esc(a + b) == esc(a) + esc(b),
    decreases a.len(),
{
    if a.len() == 0 {
        assert(a + b =~= b);
        assert(esc(a) + esc(b) =~= esc(b));
    } else {
        lemma_esc_concat(a.subrange(1, a.len() as int), b);
        assert((a + b).subrange(1, (a + b).len() as int) =~= a.subrange(1, a.len() as int) + b);
        assert((a + b)[0] == a[0]);
        assert(esc(a + b) =~= esc(a) + esc(b));
    }
}

/// Escaping one character.
pub proof fn lemma_esc_single(c: char)
    ensures
        esc(seq![c]) == esc1(c),
{
    assert(seq![c].subrange(1, 1) =~= Seq::<char>::empty());
    assert(esc(seq![c]) == esc1(seq![c][0]) + esc(seq![c].subrange(1, 1)));
    assert(seq![c][0] == c);
    assert(esc1(c) + Seq::<char>::empty() =~= esc1(c));
}

/// An escaped value never opens with an unescaped quote, and its pieces
/// are one or two characters long.
pub proof fn lemma_esc1_shape(c: char)
    ensures
        1 <= esc1(c).len() <= 2,
        esc1(c)[0] != '"',
{
}

/// Two escaped values followed by closing quotes that occupy the same
/// characters are the same value.
pub proof fn lemma_esc_align(seg: Seq<char>, t1: Seq<char>, x: Seq<char>, t2: Seq<char>, y: Seq<
    char,
>)
    requires
        seg == esc(t1) + x,
        seg == esc(t2) + y,
        x.len() == 0 || x[0] == '"',
        y.len() == 0 || y[0] == '"',
    ensures
        t1 == t2,
        x == y,
    decreases seg.len(),
{
    if t1.len() == 0 && t2.len() == 0 {
        assert(x =~= seg);
        assert(y =~= seg);
        assert(t1 =~= t2);
    } else if t1.len() == 0 {
        // seg == x, yet seg opens with a piece of esc(t2), never '"'.
        lemma_esc1_shape(t2[0]);
        assert(esc(t2) == esc1(t2[0]) + esc(t2.subrange(1, t2.len() as int)));
        assert(seg.len() >= 1);
        assert(seg[0] == esc1(t2[0])[0]);
        assert(x =~= seg);
        assert(false);
    } else if t2.len() == 0 {
        lemma_esc1_shape(t1[0]);
        assert(esc(t1) == esc1(t1[0]) + esc(t1.subrange(1, t1.len() as int)));
        assert(seg[0] == esc1(t1[0])[0]);
        assert(y =~= seg);
        assert(false);
    } else {
        let c1 = t1[0];
        let c2 = t2[0];
        let r1 = t1.subrange(1, t1.len() as int);
        let r2 = t2.subrange(1, t2.len() as int);
        assert(esc(t1) == esc1(c1) + esc(r1));
        assert(esc(t2) == esc1(c2) + esc(r2));
        lemma_esc1_shape(c1);
        lemma_esc1_shape(c2);
        assert(seg[0] == esc1(c1)[0]);
        assert(seg[0] == esc1(c2)[0]);
        let s1 = c1 == '"' || c1 == '\\';
        let s2 = c2 == '"' || c2 == '\\';
        if s1 && s2 {
            assert(seg[1] == c1);
            assert(seg[1] == c2);
            let rest = seg.subrange(2, seg.len() as int);
            assert(rest =~= esc(r1) + x);
            assert(rest =~= esc(r2) + y);
            lemma_esc_align(rest, r1, x, r2, y);
            assert(t1 =~= seq![c1] + r1);
            assert(t2 =~= seq![c2] + r2);
        } else if s1 {
            // seg[0] is a backslash from t1's side, so c2 is a verbatim
            // backslash — but a backslash is always escaped.
            assert(seg[0] == '\\');
            assert(seg[0] == c2);
            assert(false);
        } else if s2 {
            assert(seg[0] == '\\');
            assert(seg[0] == c1);
            assert(false);
        } else {
            assert(seg[0] == c1);
            assert(seg[0] == c2);
            let rest = seg.subrange(1, seg.len() as int);
            assert(rest =~= esc(r1) + x);
            assert(rest =~= esc(r2) + y);
            lemma_esc_align(rest, r1, x, r2, y);
            assert(t1 =~= seq![c1] + r1);
            assert(t2 =~= seq![c2] + r2);
        }
    }
}

// --- The message history as a JSON array -------------------------------

/// The encodings of the listed envelopes, joined with commas.
pub open spec fn spec_history_items(ms: Seq<crate::envelope::MessageView>) -> Seq<char>
    decreases ms.len(),
{
    if ms.len() == 0 {
        Seq::<char>::empty()
    } else if ms.len() == 1 {
        spec_env(ms[0].ts, ms[0].text, ms[0].sender)
    } else {
        spec_history_items(ms.drop_last()) + seq![','] + spec_env(
            ms.last().ts,
            ms.last().text,
            ms.last().sender,
        )
    }
}

/// The whole accumulated history as one JSON array of envelopes, the
/// body of the history listing endpoint. An empty history reads `[]`.
pub open spec fn spec_history(ms: Seq<crate::envelope::MessageView>) -> Seq<char> {
    seq!['['] + spec_history_items(ms) + seq![']']
}

// --- The shape of a canonical encoding --------------------------------

/// Where each piece of a canonical encoding sits: the lengths add up,
/// and each position holds the character of its piece.
pub proof fn lemma_env_layout(ts: int, t: Seq<char>, sn: Seq<char>)
    ensures
        spec_env(ts, t, sn).len() == 6 + spec_i64(ts).len() + 9 + esc(t).len() + 12 + esc(
            sn,
        ).len() + 2,
        forall|j: int|
            0 <= j < 6 ==> #[trigger] spec_env(ts, t, sn)[j] == lit_ts()[j],
        forall|j: int|
            0 <= j < spec_i64(ts).len() ==> #[trigger] spec_env(ts, t, sn)[6 + j] == spec_i64(
                ts,
            )[j],
        forall|j: int|
            0 <= j < 9 ==> #[trigger] spec_env(ts, t, sn)[6 + spec_i64(ts).len() + j]
                == lit_text()[j],
        forall|j: int|
            0 <= j < esc(t).len() ==> #[trigger] spec_env(ts, t, sn)[6 + spec_i64(ts).len() + 9
                + j] == esc(t)[j],
        forall|j: int|
            0 <= j < 12 ==> #[trigger] spec_env(ts, t, sn)[6 + spec_i64(ts).len() + 9 + esc(
                t,
            ).len() + j] == lit_sender()[j],
        forall|j: int|
            0 <= j < esc(sn).len() ==> #[trigger] spec_env(ts, t, sn)[6 + spec_i64(ts).len() + 9
                + esc(t).len() + 12 + j] == esc(sn)[j],
        forall|j: int|
            0 <= j < 2 ==> #[trigger] spec_env(ts, t, sn)[6 + spec_i64(ts).len() + 9 + esc(
                t,
            ).len() + 12 + esc(sn).len() + j] == lit_end()[j],
{
    let e = spec_env(ts, t, sn);
    let a = lit_ts() + spec_i64(ts) + lit_text() + esc(t) + lit_sender() + esc(sn);
    let b = lit_ts() + spec_i64(ts) + lit_text() + esc(t) + lit_sender();
    let c = lit_ts() + spec_i64(ts) + lit_text() + esc(t);
    let d = lit_ts() + spec_i64(ts) + lit_text();
    let f = lit_ts() + spec_i64(ts);
    assert(e == a + lit_end());
    assert(a == b + esc(sn));
    assert(b == c + lit_sender());
    assert(c == d + esc(t));
    assert(d == f + lit_text());
    assert(f == lit_ts() + spec_i64(ts));
}

/// The sign position: a canonical encoding carries '-' right after the
/// timestamp key exactly when the timestamp is negative, and a digit
/// there otherwise; the digits of the magnitude follow.
pub proof fn lemma_env_sign(ts: int)
    ensures
        ts < 0 ==> spec_i64(ts) == seq!['-'] + dec_digits((-ts) as nat),
        ts >= 0 ==> spec_i64(ts) == dec_digits(ts as nat),
        spec_i64(ts).len() >= 1,
        spec_i64(ts)[0] == '-' <==> ts < 0,
        ts < 0 ==> forall|j: int|
            0 <= j < dec_digits((-ts) as nat).len() ==> #[trigger] spec_i64(ts)[1 + j]
                == dec_digits((-ts) as nat)[j],
{
    if ts < 0 {
        lemma_dec_digits_are_digits((-ts) as nat);
        assert(spec_i64(ts)[0] == '-');
    } else {
        lemma_dec_digits_are_digits(ts as nat);
        assert(!is_digit_char('-'));
        assert(spec_i64(ts)[0] == dec_digits(ts as nat)[0]);
    }
}

/// Canonical encodings are unique: equal encodings come from equal
/// envelopes, field for field. Together with the contracts of `encode`
/// and `decode` this is the codec round trip: decoding an encoded
/// envelope yields exactly the envelope that was encoded.
pub proof fn lemma_env_injective(
    ts1: int,
    t1: Seq<char>,
    sn1: Seq<char>,
    ts2: int,
    t2: Seq<char>,
    sn2: Seq<char>,
)
    requires
        spec_env(ts1, t1, sn1) == spec_env(ts2, t2, sn2),
    ensures
        ts1 == ts2,
        t1 == t2,
        sn1 == sn2,
{
    let e = spec_env(ts1, t1, sn1);
    lemma_env_layout(ts1, t1, sn1);
    lemma_env_layout(ts2, t2, sn2);
    lemma_env_sign(ts1);
    lemma_env_sign(ts2);
    let m1 = if ts1 < 0 {
        (-ts1) as nat
    } else {
        ts1 as nat
    };
    let m2 = if ts2 < 0 {
        (-ts2) as nat
    } else {
        ts2 as nat
    };
    let d1 = dec_digits(m1);
    let d2 = dec_digits(m2);
    lemma_dec_digits_are_digits(m1);
    lemma_dec_digits_are_digits(m2);
    // The sign is readable off position 6.
    assert(e[6] == spec_i64(ts1)[0]);
    assert(e[6] == spec_i64(ts2)[0]);
    assert(is_digit_char(e[6]) ==> e[6] != '-');
    assert((ts1 < 0) <==> (ts2 < 0)) by {
        if ts1 < 0 && ts2 >= 0 {
            assert(e[6] == '-');
            assert(e[6] == d2[0]);
            assert(!is_digit_char('-'));
        }
        if ts2 < 0 && ts1 >= 0 {
            assert(e[6] == '-');
            assert(e[6] == d1[0]);
            assert(!is_digit_char('-'));
        }
    }
    let p: int = if ts1 < 0 {
        7
    } else {
        6
    };
    // Both magnitudes' digit runs start at p, each followed by the ','
    // of its own text key; the runs must have the same length.
    assert(forall|j: int| 0 <= j < d1.len() ==> #[trigger] e[p + j] == d1[j]);
    assert(forall|j: int| 0 <= j < d2.len() ==> #[trigger] e[p + j] == d2[j]);
    assert(e[6 + spec_i64(ts1).len() as int] == lit_text()[0]);
    assert(e[6 + spec_i64(ts2).len() as int] == lit_text()[0]);
    assert(p + d1.len() == 6 + spec_i64(ts1).len());
    assert(p + d2.len() == 6 + spec_i64(ts2).len());
    assert(d1.len() == d2.len()) by {
        if d1.len() < d2.len() {
            assert(e[p + d1.len()] == ',');
            assert(e[p + d1.len()] == d2[d1.len() as int]);
            assert(is_digit_char(d2[d1.len() as int]));
        }
        if d2.len() < d1.len() {
            assert(e[p + d2.len()] == ',');
            assert(e[p + d2.len()] == d1[d2.len() as int]);
            assert(is_digit_char(d1[d2.len() as int]));
        }
    }
    assert forall|j: int| 0 <= j < d1.len() implies d1[j] == d2[j] by {
        assert(e[p + j] == d1[j]);
        assert(e[p + j] == d2[j]);
    }
    assert(d1 =~= d2);
    lemma_digits_val_inverse(m1);
    lemma_digits_val_inverse(m2);
    assert(m1 == m2);
    assert(ts1 == ts2);
    // Past the timestamp both encodings agree position for position, so
    // the remaining segment decomposes in two ways around the escaped
    // text, each followed by the quote that opens `","sender":"`.
    let o3 = 6 + spec_i64(ts1).len() + 9;
    let seg = e.subrange(o3 as int, e.len() as int);
    let x1 = lit_sender() + esc(sn1) + lit_end();
    let x2 = lit_sender() + esc(sn2) + lit_end();
    assert(seg =~= esc(t1) + x1);
    assert(seg =~= esc(t2) + x2);
    assert(x1[0] == '"');
    assert(x2[0] == '"');
    lemma_esc_align(seg, t1, x1, t2, x2);
    // And the same once more for the sender segment.
    let seg2 = x1.subrange(12, x1.len() as int);
    assert(seg2 =~= esc(sn1) + lit_end());
    assert(x1 == x2);
    assert(seg2 =~= esc(sn2) + lit_end());
    assert(lit_end()[0] == '"');
    lemma_esc_align(seg2, sn1, lit_end(), sn2, lit_end());
}

// --- The encoder -------------------------------------------------------

fn digit_char_exec(d: u64) -> (c: char)
    requires
        d < 10,
    ensures
        c == digit_char(d as nat),
{
    if d == 0 {
        '0'
    } else if d == 1 {
        '1'
    } else if d == 2 {
        '2'
    } else if d == 3 {
        '3'
    } else if d == 4 {
        '4'
    } else if d == 5 {
        '5'
    } else if d == 6 {
        '6'
    } else if d == 7 {
        '7'
    } else if d == 8 {
        '8'
    } else {
        '9'
    }
}

fn append_u64(out: &mut String, n: u64)
    ensures
        final(out)@ == old(out)@ + dec_digits(n as nat),
    decreases n,
{
    if n < 10 {
        string_push(out, digit_char_exec(n));
        proof {
            assert(out@ =~= old(out)@ + dec_digits(n as nat));
        }
    } else {
        append_u64(out, n / 10);
        string_push(out, digit_char_exec(n % 10));
        proof {
            assert(dec_digits(n as nat) == dec_digits((n as nat) / 10).push(
                digit_char((n as nat) % 10),
            ));
            assert(out@ =~= old(out)@ + dec_digits(n as nat));
        }
    }
}

fn append_i64(out: &mut String, v: i64)
    ensures
        final(out)@ == old(out)@ + spec_i64(v as int),
{
    if v >= 0 {
        append_u64(out, v as u64);
    } else {
        string_push(out, '-');
        let mag: u64 = if v == i64::MIN {
            9223372036854775808u64
        } else {
            (-v) as u64
        };
        proof {
            assert(mag as nat == (-(v as int)) as nat);
        }
        append_u64(out, mag);
        proof {
            assert(out@ =~= old(out)@ + spec_i64(v as int));
        }
    }
}

fn append_escaped(out: &mut String, s: &str)
    ensures
        final(out)@ == old(out)@ + esc(s@),
{
    let cs = str_chars(s);
    let mut i: usize = 0;
    while i < cs.len()
        invariant
            i <= cs@.len(),
            cs@ == s@,
            out@ == old(out)@ + esc(cs@.subrange(0, i as int)),
        decreases cs@.len() - i,
    {
        let c = cs[i];
        if c == '"' || c == '\\' {
            string_push(out, '\\');
            string_push(out, c);
        } else {
            string_push(out, c);
        }
        proof {
            let pre = cs@.subrange(0, i as int);
            lemma_esc_concat(pre, seq![c]);
            lemma_esc_single(c);
            assert(cs@.subrange(0, i + 1) =~= pre + seq![c]);
            assert(out@ =~= old(out)@ + esc(cs@.subrange(0, i + 1)));
        }
        i = i + 1;
    }
    proof {
        assert(cs@.subrange(0, cs@.len() as int) =~= s@);
    }
}

/// Encode an envelope into its canonical text form, ready to travel as
/// one text frame. Only client shells encode and decode; the server
/// relays the frame verbatim.
pub fn encode(m: &Message) -> (r: String)
    ensures
        r@ == spec_env(m.ts as int, m.text@, m.sender@),
{
    let mut out = String::new();
    string_push(&mut out, '{');
    string_push(&mut out, '"');
    string_push(&mut out, 't');
    string_push(&mut out, 's');
    string_push(&mut out, '"');
    string_push(&mut out, ':');
    proof {
        assert(out@ =~= lit_ts());
    }
    append_i64(&mut out, m.ts);
    let ghost p1 = lit_ts() + spec_i64(m.ts as int);
    string_push(&mut out, ',');
    string_push(&mut out, '"');
    string_push(&mut out, 't');
    string_push(&mut out, 'e');
    string_push(&mut out, 'x');
    string_push(&mut out, 't');
    string_push(&mut out, '"');
    string_push(&mut out, ':');
    string_push(&mut out, '"');
    proof {
        assert(out@ =~= p1 + lit_text());
    }
    append_escaped(&mut out, m.text.as_str());
    let ghost p2 = p1 + lit_text() + esc(m.text@);
    string_push(&mut out, '"');
    string_push(&mut out, ',');
    string_push(&mut out, '"');
    string_push(&mut out, 's');
    string_push(&mut out, 'e');
    string_push(&mut out, 'n');
    string_push(&mut out, 'd');
    string_push(&mut out, 'e');
    string_push(&mut out, 'r');
    string_push(&mut out, '"');
    string_push(&mut out, ':');
    string_push(&mut out, '"');
    proof {
        assert(out@ =~= p2 + lit_sender());
    }
    append_escaped(&mut out, m.sender.as_str());
    string_push(&mut out, '"');
    string_push(&mut out, '}');
    proof {
        assert(out@ =~= spec_env(m.ts as int, m.text@, m.sender@));
    }
    out
}

/// Render the accumulated message history as one JSON array, the body
/// served by the history listing endpoint.
pub fn history_json(messages: &Vec<Message>) -> (r: String)
    ensures
        r@ == spec_history(messages@.map_values(|m: Message| m@)),
{
    let ghost views = messages@.map_values(|m: Message| m@);
    let mut out = String::new();
    string_push(&mut out, '[');
    let mut i: usize = 0;
    while i < messages.len()
        invariant
            i <= messages@.len(),
            views == messages@.map_values(|m: Message| m@),
            out@ == seq!['['] + spec_history_items(views.subrange(0, i as int)),
        decreases messages@.len() - i,
    {
        if i > 0 {
            string_push(&mut out, ',');
        }
        let piece = encode(&messages[i]);
        out.append(piece.as_str());
        i = i + 1;
        proof {
            let pre = views.subrange(0, (i - 1) as int);
            let cur = views.subrange(0, i as int);
            assert(cur.drop_last() =~= pre);
            assert(cur.last() == views[i - 1]);
            if i == 1 {
                assert(spec_history_items(cur) == spec_env(
                    views[0].ts,
                    views[0].text,
                    views[0].sender,
                ));
            }
            assert(out@ =~= seq!['['] + spec_history_items(cur));
        }
    }
    string_push(&mut out, ']');
    proof {
        assert(views.subrange(0, views.len() as int) =~= views);
        assert(out@ =~= spec_history(views));
    }
    out
}

// --- The decoder -------------------------------------------------------

/// Where the next character of a value sits inside its escaped form.
proof fn lemma_esc_next(g: Seq<char>, k: int)
    requires
        0 <= k < g.len(),
    ensures
        esc(g).len() == esc(g.subrange(0, k)).len() + esc1(g[k]).len() + esc(
            g.subrange(k + 1, g.len() as int),
        ).len(),
        esc(g)[esc(g.subrange(0, k)).len() as int] == esc1(g[k])[0],
        esc1(g[k]).len() == 2 ==> esc(g)[esc(g.subrange(0, k)).len() + 1int] == esc1(g[k])[1],
{
    let pre = g.subrange(0, k);
    let suf = g.subrange(k + 1, g.len() as int);
    assert(g =~= pre + (seq![g[k]] + suf));
    lemma_esc_concat(pre, seq![g[k]] + suf);
    lemma_esc_concat(seq![g[k]], suf);
    lemma_esc_single(g[k]);
    assert(esc(g) == esc(pre) + (esc1(g[k]) + esc(suf)));
}

fn digit_of(c: char) -> (r: Option<u64>)
    ensures
        r matches Some(d) ==> d < 10 && digit_char(d as nat) == c,
        r is None ==> !is_digit_char(c),
{
    match c {
        '0' => Some(0u64),
        '1' => Some(1u64),
        '2' => Some(2u64),
        '3' => Some(3u64),
        '4' => Some(4u64),
        '5' => Some(5u64),
        '6' => Some(6u64),
        '7' => Some(7u64),
        '8' => Some(8u64),
        '9' => Some(9u64),
        _ => None,
    }
}

/// Read one canonical decimal magnitude starting at `start`. When the
/// ghost expectation carries the magnitude that a canonical encoding
/// placed there, the parse is guaranteed to find exactly it.
#[verifier::loop_isolation(false)]
fn parse_u64(cs: &Vec<char>, start: usize, expect: Ghost<Option<nat>>) -> (r: Option<
    (u64, usize),
>)
    requires
        start <= cs@.len(),
        expect@ matches Some(m) ==> m <= 9223372036854775808
            && start + dec_digits(m).len() < cs@.len()
            && (forall|j: int|
                0 <= j < dec_digits(m).len() ==> cs@[start + j] == #[trigger] dec_digits(m)[j])
            && !is_digit_char(cs@[start + dec_digits(m).len() as int]),
    ensures
        r matches Some(p) ==> start < p.1 <= cs@.len()
            && cs@.subrange(start as int, p.1 as int) == dec_digits(p.0 as nat),
        expect@ matches Some(m) ==> (r matches Some(p) && p.0 as nat == m && p.1 == start
            + dec_digits(m).len()),
{
    proof {
        if let Some(m) = expect@ {
            lemma_dec_digits_are_digits(m);
            lemma_dec_digits_leading(m);
        }
        lemma_pow10_values();
    }
    if start >= cs.len() {
        proof {
            if let Some(m) = expect@ {
                assert(false);
            }
        }
        return None;
    }
    let d0 = match digit_of(cs[start]) {
        Some(d) => d,
        None => {
            proof {
                if let Some(m) = expect@ {
                    assert(cs@[start as int] == dec_digits(m)[0]);
                    assert(false);
                }
            }
            return None;
        },
    };
    if d0 == 0 {
        proof {
            assert(cs@.subrange(start as int, start + 1) =~= seq![cs@[start as int]]);
            assert(dec_digits(0) == seq![digit_char(0)]);
            if let Some(m) = expect@ {
                assert(dec_digits(m)[0] == cs@[start as int]);
                assert(m == 0);
            }
        }
        return Some((0u64, start + 1));
    }
    let mut v: u64 = d0;
    let mut j: usize = start + 1;
    proof {
        assert(cs@.subrange(start as int, j as int) =~= seq![cs@[start as int]]);
        assert(dec_digits(v as nat) == seq![digit_char(v as nat)]);
        if let Some(m) = expect@ {
            assert(dec_digits(m).len() >= 1);
        }
    }
    loop
        invariant
            start < j <= cs@.len(),
            j - start <= 19,
            1 <= v,
            (v as nat) < pow10((j - start) as nat),
            cs@.subrange(start as int, j as int) == dec_digits(v as nat),
            expect@ matches Some(m) ==> j <= start + dec_digits(m).len(),
        decreases cs@.len() - j,
    {
        if j == cs.len() {
            proof {
                if let Some(m) = expect@ {
                    assert(false);
                }
            }
            return Some((v, j));
        }
        if j - start == 19 {
            proof {
                if let Some(m) = expect@ {
                    assert(m < pow10(19));
                    lemma_dec_digits_len(m, 19);
                    assert(j == start + dec_digits(m).len());
                    assert forall|i: int| 0 <= i < dec_digits(m).len() implies dec_digits(
                        v as nat,
                    )[i] == dec_digits(m)[i] by {
                        assert(cs@[start + i] == dec_digits(m)[i]);
                        assert(cs@.subrange(start as int, j as int)[i] == cs@[start + i]);
                    }
                    assert(dec_digits(v as nat) =~= dec_digits(m));
                    lemma_digits_val_inverse(v as nat);
                    lemma_digits_val_inverse(m);
                }
            }
            return Some((v, j));
        }
        match digit_of(cs[j]) {
            None => {
                proof {
                    if let Some(m) = expect@ {
                        if j < start + dec_digits(m).len() {
                            assert(cs@[j as int] == dec_digits(m)[j - start]);
                            assert(is_digit_char(dec_digits(m)[j - start]));
                            assert(false);
                        }
                        assert(j == start + dec_digits(m).len());
                        assert forall|i: int| 0 <= i < dec_digits(m).len() implies dec_digits(
                            v as nat,
                        )[i] == dec_digits(m)[i] by {
                            assert(cs@[start + i] == dec_digits(m)[i]);
                            assert(cs@.subrange(start as int, j as int)[i] == cs@[start + i]);
                        }
                        assert(dec_digits(v as nat) =~= dec_digits(m));
                        lemma_digits_val_inverse(v as nat);
                        lemma_digits_val_inverse(m);
                    }
                }
                return Some((v, j));
            },
            Some(d) => {
                proof {
                    lemma_pow10_mono((j - start) as nat, 18);
                    assert((v as nat) < pow10(18));
                }
                let ghost oldv = v as nat;
                let ghost oldj = j as int;
                v = v * 10 + d;
                j = j + 1;
                proof {
                    assert((v as nat) / 10 == oldv);
                    assert((v as nat) % 10 == d as nat);
                    assert(v >= 10);
                    assert(dec_digits(v as nat) == dec_digits(oldv).push(digit_char(d as nat)));
                    assert(cs@.subrange(start as int, j as int) =~= cs@.subrange(
                        start as int,
                        oldj,
                    ).push(cs@[oldj]));
                    assert(pow10((j - start) as nat) == 10 * pow10((oldj - start) as nat));
                    if let Some(m) = expect@ {
                        if oldj == start + dec_digits(m).len() {
                            assert(!is_digit_char(cs@[oldj]));
                            assert(false);
                        }
                    }
                }
            },
        }
    }
}

/// Read one quoted field value starting at `start`, up to but not
/// including its closing quote. When the ghost expectation carries the
/// value that a canonical encoding placed there, the parse is
/// guaranteed to find exactly it.
#[verifier::loop_isolation(false)]
fn parse_string(cs: &Vec<char>, start: usize, expect: Ghost<Option<Seq<char>>>) -> (r: Option<
    (Vec<char>, usize),
>)
    requires
        start <= cs@.len(),
        expect@ matches Some(g) ==> start + esc(g).len() < cs@.len()
            && (forall|j: int| 0 <= j < esc(g).len() ==> cs@[start + j] == #[trigger] esc(g)[j])
            && cs@[start + esc(g).len() as int] == '"',
    ensures
        r matches Some(p) ==> start <= p.1 < cs@.len()
            && cs@.subrange(start as int, p.1 as int) == esc(p.0@)
            && cs@[p.1 as int] == '"',
        expect@ matches Some(g) ==> (r matches Some(p) && p.0@ == g && p.1 == start
            + esc(g).len()),
{
    let mut t: Vec<char> = Vec::new();
    let mut j: usize = start;
    proof {
        assert(cs@.subrange(start as int, start as int) =~= Seq::<char>::empty());
        assert(esc(t@) =~= Seq::<char>::empty());
        if let Some(g) = expect@ {
            assert(t@ =~= g.subrange(0, 0));
        }
    }
    loop
        invariant
            start <= j <= cs@.len(),
            cs@.subrange(start as int, j as int) == esc(t@),
            expect@ matches Some(g) ==> t@.len() <= g.len() && t@ == g.subrange(
                0,
                t@.len() as int,
            ),
        decreases cs@.len() - j,
    {
        proof {
            assert(j - start == esc(t@).len());
            if let Some(g) = expect@ {
                if t@.len() < g.len() {
                    lemma_esc_next(g, t@.len() as int);
                    lemma_esc1_shape(g[t@.len() as int]);
                    assert(esc(g.subrange(0, t@.len() as int)) == esc(t@));
                }
            }
        }
        if j == cs.len() {
            proof {
                if let Some(g) = expect@ {
                    if t@.len() == g.len() {
                        assert(g.subrange(0, t@.len() as int) =~= g);
                        assert(esc(t@) == esc(g));
                        assert(false);
                    } else {
                        assert(esc(g).len() >= esc(t@).len() + 1);
                        assert(false);
                    }
                }
            }
            return None;
        }
        let c = cs[j];
        if c == '"' {
            proof {
                if let Some(g) = expect@ {
                    if t@.len() < g.len() {
                        assert(cs@[j as int] == esc(g)[(j - start) as int]);
                        assert(esc(g)[(j - start) as int] == esc1(g[t@.len() as int])[0]);
                        assert(false);
                    }
                    assert(t@ =~= g);
                }
            }
            return Some((t, j));
        }
        if c == '\\' {
            proof {
                if let Some(g) = expect@ {
                    if t@.len() == g.len() {
                        assert(t@ =~= g);
                        assert(cs@[j as int] == '"');
                        assert(false);
                    }
                    // the expected next piece opens with this backslash,
                    // so the expected character is an escaped one
                    assert(cs@[j as int] == esc1(g[t@.len() as int])[0]);
                    if !(g[t@.len() as int] == '"' || g[t@.len() as int] == '\\') {
                        assert(esc1(g[t@.len() as int])[0] == g[t@.len() as int]);
                        assert(false);
                    }
                    assert(esc1(g[t@.len() as int]).len() == 2);
                    assert(cs@[j + 1] == esc(g)[(j + 1 - start) as int]);
                    assert(cs@[j + 1] == g[t@.len() as int]);
                }
            }
            if j + 1 == cs.len() {
                proof {
                    if let Some(g) = expect@ {
                        assert(j + 1 - start < esc(g).len());
                        assert(false);
                    }
                }
                return None;
            }
            let c2 = cs[j + 1];
            if c2 == '"' || c2 == '\\' {
                let ghost tp = t@;
                let ghost oldj = j as int;
                t.push(c2);
                j = j + 2;
                proof {
                    lemma_esc_concat(tp, seq![c2]);
                    lemma_esc_single(c2);
                    assert(tp.push(c2) =~= tp + seq![c2]);
                    assert(esc1(c2) == seq!['\\', c2]);
                    assert(cs@.subrange(start as int, j as int) =~= cs@.subrange(
                        start as int,
                        oldj,
                    ) + seq!['\\', c2]);
                    assert(cs@.subrange(start as int, j as int) == esc(t@));
                    if let Some(g) = expect@ {
                        assert(c2 == g[tp.len() as int]);
                        assert(t@ =~= g.subrange(0, t@.len() as int));
                    }
                }
            } else {
                proof {
                    if let Some(g) = expect@ {
                        assert(false);
                    }
                }
                return None;
            }
        } else {
            proof {
                if let Some(g) = expect@ {
                    if t@.len() == g.len() {
                        assert(t@ =~= g);
                        assert(cs@[j as int] == '"');
                        assert(false);
                    }
                    assert(cs@[j as int] == esc1(g[t@.len() as int])[0]);
                    if g[t@.len() as int] == '"' || g[t@.len() as int] == '\\' {
                        assert(esc1(g[t@.len() as int])[0] == '\\');
                        assert(false);
                    }
                    assert(cs@[j as int] == g[t@.len() as int]);
                }
            }
            let ghost tp = t@;
            let ghost oldj = j as int;
            t.push(c);
            j = j + 1;
            proof {
                lemma_esc_concat(tp, seq![c]);
                lemma_esc_single(c);
                assert(tp.push(c) =~= tp + seq![c]);
                assert(esc1(c) == seq![c]);
                assert(cs@.subrange(start as int, j as int) =~= cs@.subrange(start as int, oldj)
                    + seq![c]);
                assert(cs@.subrange(start as int, j as int) == esc(t@));
                if let Some(g) = expect@ {
                    assert(c == g[tp.len() as int]);
                    assert(t@ =~= g.subrange(0, t@.len() as int));
                }
            }
        }
    }
}

/// Decode one text frame. Exactly the canonical encodings are accepted:
/// on success the input is the encoding of the returned envelope and of
/// no other envelope; any other text — whatever it holds — comes back
/// as None, so a client that receives a frame nobody encoded discards
/// it without crashing and without touching its history.
#[verifier::rlimit(100)]
pub fn decode(s: &str) -> (r: Option<Message>)
    ensures
        r matches Some(m) ==> s@ == spec_env(m.ts as int, m.text@, m.sender@),
        r matches Some(m) ==> forall|ts: int, t: Seq<char>, sn: Seq<char>|
            i64::MIN <= ts <= i64::MAX && s@ == #[trigger] spec_env(ts, t, sn) ==> ts
                == m.ts as int && t == m.text@ && sn == m.sender@,
        r is None ==> !is_canonical_env(s@),
{
    let cs = str_chars(s);
    let ghost canon = is_canonical_env(cs@);
    let ghost (gts, gt, gsn): (int, Seq<char>, Seq<char>) = if canon {
        choose|ts: int, t: Seq<char>, sn: Seq<char>|
            i64::MIN <= ts <= i64::MAX && cs@ == #[trigger] spec_env(ts, t, sn)
    } else {
        (0int, Seq::<char>::empty(), Seq::<char>::empty())
    };
    let ghost gm: nat = if gts < 0 {
        (-gts) as nat
    } else {
        gts as nat
    };
    let ghost gd: Seq<char> = spec_i64(gts);
    proof {
        assert(cs@ == s@);
        if canon {
            assert(cs@ == spec_env(gts, gt, gsn));
            lemma_env_layout(gts, gt, gsn);
            lemma_env_sign(gts);
            lemma_dec_digits_are_digits(gm);
        }
    }
    if cs.len() < 30 {
        proof {
            if canon {
                assert(false);
            }
        }
        return None;
    }
    if cs[0] != '{' || cs[1] != '"' || cs[2] != 't' || cs[3] != 's' || cs[4] != '"' || cs[5]
        != ':' {
        proof {
            if canon {
                assert(cs@[0] == lit_ts()[0]);
                assert(cs@[1] == lit_ts()[1]);
                assert(cs@[2] == lit_ts()[2]);
                assert(cs@[3] == lit_ts()[3]);
                assert(cs@[4] == lit_ts()[4]);
                assert(cs@[5] == lit_ts()[5]);
                assert(false);
            }
        }
        return None;
    }
    let neg = cs[6] == '-';
    proof {
        if canon {
            assert(cs@[6] == gd[0]);
            if gts < 0 {
                assert(gd[0] == '-');
            } else {
                assert(is_digit_char(gd[0]));
                assert(!is_digit_char('-'));
            }
            assert(neg <==> gts < 0);
        }
    }
    let dstart: usize = if neg {
        7
    } else {
        6
    };
    let ghost dexp: Option<nat> = if canon {
        Some(gm)
    } else {
        None
    };
    proof {
        if canon {
            assert(gm <= 9223372036854775808);
            if gts < 0 {
                assert(gd == seq!['-'] + dec_digits(gm));
                assert forall|i: int| 0 <= i < dec_digits(gm).len() implies cs@[dstart + i]
                    == #[trigger] dec_digits(gm)[i] by {
                    assert(gd[1 + i] == dec_digits(gm)[i]);
                    assert(cs@[6 + (1 + i)] == gd[1 + i]);
                }
            } else {
                assert(gd == dec_digits(gm));
                assert forall|i: int| 0 <= i < dec_digits(gm).len() implies cs@[dstart + i]
                    == #[trigger] dec_digits(gm)[i] by {
                    assert(cs@[6 + i] == gd[i]);
                }
            }
            assert(dstart + dec_digits(gm).len() == 6 + gd.len());
            assert(cs@[6 + gd.len() as int] == lit_text()[0]);
            assert(lit_text()[0] == ',');
            assert(!is_digit_char(','));
            assert(dstart + dec_digits(gm).len() < cs@.len());
        }
    }
    let parsed = parse_u64(&cs, dstart, Ghost(dexp));
    let (v, dj) = match parsed {
        Some(p) => p,
        None => {
            proof {
                if canon {
                    assert(false);
                }
            }
            return None;
        },
    };
    proof {
        if canon {
            assert(v as nat == gm);
            assert(dj == 6 + gd.len());
        }
    }
    if neg {
        if v > 9223372036854775808u64 {
            proof {
                if canon {
                    assert(false);
                }
            }
            return None;
        }
        if v == 0 {
            proof {
                if canon {
                    assert(gts < 0);
                    assert(gm >= 1);
                    assert(false);
                }
            }
            return None;
        }
    } else {
        if v > 9223372036854775807u64 {
            proof {
                if canon {
                    assert(gts >= 0);
                    assert(gm == gts);
                    assert(false);
                }
            }
            return None;
        }
    }
    let tsv: i64 = if neg {
        if v == 9223372036854775808u64 {
            i64::MIN
        } else {
            -(v as i64)
        }
    } else {
        v as i64
    };
    proof {
        if neg {
            assert((tsv as int) < 0);
            assert((-(tsv as int)) as nat == v as nat);
        } else {
            assert(tsv as int == v as nat);
        }
        if canon {
            assert(tsv as int == gts);
        }
    }
    if cs.len() - dj < 9 {
        proof {
            if canon {
                assert(false);
            }
        }
        return None;
    }
    if cs[dj] != ',' || cs[dj + 1] != '"' || cs[dj + 2] != 't' || cs[dj + 3] != 'e' || cs[dj + 4]
        != 'x' || cs[dj + 5] != 't' || cs[dj + 6] != '"' || cs[dj + 7] != ':' || cs[dj + 8]
        != '"' {
        proof {
            if canon {
                assert(cs@[6 + gd.len() as int + 0] == lit_text()[0]);
                assert(cs@[6 + gd.len() as int + 1] == lit_text()[1]);
                assert(cs@[6 + gd.len() as int + 2] == lit_text()[2]);
                assert(cs@[6 + gd.len() as int + 3] == lit_text()[3]);
                assert(cs@[6 + gd.len() as int + 4] == lit_text()[4]);
                assert(cs@[6 + gd.len() as int + 5] == lit_text()[5]);
                assert(cs@[6 + gd.len() as int + 6] == lit_text()[6]);
                assert(cs@[6 + gd.len() as int + 7] == lit_text()[7]);
                assert(cs@[6 + gd.len() as int + 8] == lit_text()[8]);
                assert(false);
            }
        }
        return None;
    }
    let tstart = dj + 9;
    let ghost texp: Option<Seq<char>> = if canon {
        Some(gt)
    } else {
        None
    };
    proof {
        if canon {
            assert forall|i: int| 0 <= i < esc(gt).len() implies cs@[tstart + i] == #[trigger] esc(
                gt,
            )[i] by {
                assert(cs@[6 + gd.len() as int + 9 + i] == esc(gt)[i]);
            }
            assert(cs@[6 + gd.len() as int + 9 + esc(gt).len() + 0] == lit_sender()[0]);
            assert(cs@[tstart + esc(gt).len() as int] == '"');
            assert(tstart + esc(gt).len() < cs@.len());
        }
    }
    let tparsed = parse_string(&cs, tstart, Ghost(texp));
    let (tvec, tj) = match tparsed {
        Some(p) => p,
        None => {
            proof {
                if canon {
                    assert(false);
                }
            }
            return None;
        },
    };
    proof {
        if canon {
            assert(tvec@ == gt);
            assert(tj == 6 + gd.len() + 9 + esc(gt).len());
        }
    }
    if cs.len() - tj < 12 {
        proof {
            if canon {
                assert(false);
            }
        }
        return None;
    }
    if cs[tj] != '"' || cs[tj + 1] != ',' || cs[tj + 2] != '"' || cs[tj + 3] != 's' || cs[tj + 4]
        != 'e' || cs[tj + 5] != 'n' || cs[tj + 6] != 'd' || cs[tj + 7] != 'e' || cs[tj + 8] != 'r'
        || cs[tj + 9] != '"' || cs[tj + 10] != ':' || cs[tj + 11] != '"' {
        proof {
            if canon {
                assert(cs@[tj as int + 0] == lit_sender()[0]);
                assert(cs@[tj as int + 1] == lit_sender()[1]);
                assert(cs@[tj as int + 2] == lit_sender()[2]);
                assert(cs@[tj as int + 3] == lit_sender()[3]);
                assert(cs@[tj as int + 4] == lit_sender()[4]);
                assert(cs@[tj as int + 5] == lit_sender()[5]);
                assert(cs@[tj as int + 6] == lit_sender()[6]);
                assert(cs@[tj as int + 7] == lit_sender()[7]);
                assert(cs@[tj as int + 8] == lit_sender()[8]);
                assert(cs@[tj as int + 9] == lit_sender()[9]);
                assert(cs@[tj as int + 10] == lit_sender()[10]);
                assert(cs@[tj as int + 11] == lit_sender()[11]);
                assert(false);
            }
        }
        return None;
    }
    let snstart = tj + 12;
    let ghost snexp: Option<Seq<char>> = if canon {
        Some(gsn)
    } else {
        None
    };
    proof {
        if canon {
            assert forall|i: int| 0 <= i < esc(gsn).len() implies cs@[snstart + i]
                == #[trigger] esc(gsn)[i] by {
                assert(cs@[6 + gd.len() as int + 9 + esc(gt).len() + 12 + i] == esc(gsn)[i]);
            }
            assert(cs@[6 + gd.len() as int + 9 + esc(gt).len() + 12 + esc(gsn).len() + 0]
                == lit_end()[0]);
            assert(cs@[snstart + esc(gsn).len() as int] == '"');
            assert(snstart + esc(gsn).len() < cs@.len());
        }
    }
    let snparsed = parse_string(&cs, snstart, Ghost(snexp));
    let (snvec, snj) = match snparsed {
        Some(p) => p,
        None => {
            proof {
                if canon {
                    assert(false);
                }
            }
            return None;
        },
    };
    proof {
        if canon {
            assert(snvec@ == gsn);
            assert(snj == 6 + gd.len() + 9 + esc(gt).len() + 12 + esc(gsn).len());
        }
    }
    if cs.len() - snj != 2 {
        proof {
            if canon {
                assert(false);
            }
        }
        return None;
    }
    if cs[snj + 1] != '}' {
        proof {
            if canon {
                assert(cs@[6 + gd.len() as int + 9 + esc(gt).len() + 12 + esc(gsn).len() + 1]
                    == lit_end()[1]);
                assert(false);
            }
        }
        return None;
    }
    proof {
        let w = cs@;
        let sts = tsv as int;
        assert(w.subrange(0, 6) =~= lit_ts());
        if neg {
            assert(w.subrange(7, dj as int) == dec_digits(v as nat));
            assert(w.subrange(6, dj as int) =~= seq!['-'] + dec_digits(v as nat));
            assert(spec_i64(sts) == seq!['-'] + dec_digits((-sts) as nat));
        } else {
            assert(w.subrange(6, dj as int) == dec_digits(v as nat));
            assert(spec_i64(sts) == dec_digits(sts as nat));
        }
        assert(w.subrange(6, dj as int) == spec_i64(sts));
        assert(w.subrange(dj as int, tstart as int) =~= lit_text());
        assert(w.subrange(tstart as int, tj as int) == esc(tvec@));
        assert(w.subrange(tj as int, snstart as int) =~= lit_sender());
        assert(w.subrange(snstart as int, snj as int) == esc(snvec@));
        assert(w.subrange(snj as int, snj as int + 2) =~= lit_end());
        assert(w =~= w.subrange(0, 6) + w.subrange(6, dj as int) + w.subrange(
            dj as int,
            tstart as int,
        ) + w.subrange(tstart as int, tj as int) + w.subrange(tj as int, snstart as int)
            + w.subrange(snstart as int, snj as int) + w.subrange(snj as int, snj as int + 2));
        assert(w == spec_env(sts, tvec@, snvec@));
        assert forall|ts0: int, t0: Seq<char>, sn0: Seq<char>|
            i64::MIN <= ts0 <= i64::MAX && s@ == #[trigger] spec_env(ts0, t0, sn0) implies ts0
            == sts && t0 == tvec@ && sn0 == snvec@ by {
            lemma_env_injective(ts0, t0, sn0, sts, tvec@, snvec@);
        }
    }
    let text = chars_to_string(&tvec);
    let sender = chars_to_string(&snvec);
    Some(Message { ts: tsv, text, sender })
}

} // verus!
