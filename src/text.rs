//! Byte-level helpers: UTF-8 decoding, integer parsing and printing, the
//! decimal float grammar, and the lexicographic order on byte strings.

use vstd::prelude::*;

verus! {

/// What decoding a byte string as UTF-8 gives: the characters, or nothing
/// when the bytes are not valid UTF-8.
pub uninterp spec fn utf8_decode(b: Seq<u8>) -> Option<Seq<char>>;

/// Every byte is ASCII (below 0x80).
pub open spec fn all_ascii(b: Seq<u8>) -> bool {
    forall|i: int| 0 <= i < b.len() ==> b[i] < 128
}

/// Relies on std::str::from_utf8: `Ok` exactly for valid UTF-8; ASCII is
/// valid UTF-8 and each of its bytes decodes to the character of that code.
#[verifier::external_body]
pub(crate) fn decode_utf8(b: &[u8]) -> (r: Option<&str>)
    ensures
        r.is_some() == utf8_decode(b@).is_some(),
        r.is_some() ==> utf8_decode(b@) == Some(r.unwrap()@),
        all_ascii(b@) ==> r.is_some() && r.unwrap()@ == b@.map_values(|c: u8| c as char),
{
    std::str::from_utf8(b).ok()
}

/// The value of a string of decimal digits.
pub open spec fn digits_value(s: Seq<u8>) -> nat
    decreases s.len(),
{
    if s.len() == 0 {
        0
    } else {
        digits_value(s.drop_last()) * 10 + (s.last() - 48) as nat
    }
}

pub open spec fn all_digits(s: Seq<u8>) -> bool {
    forall|k: int| 0 <= k < s.len() ==> is_digit(s[k])
}

/// The integer grammar of std's `i64` parser: an optional `+` or `-`, one
/// or more ASCII digits, and a value within the range of `i64`.
pub open spec fn int_of_bytes(b: Seq<u8>) -> Option<i64> {
    let negative = b.len() > 0 && b[0] == 45;
    let body = if b.len() > 0 && is_sign(b[0]) {
        b.drop_first()
    } else {
        b
    };
    let v: int = if negative {
        -(digits_value(body) as int)
    } else {
        digits_value(body) as int
    };
    if body.len() > 0 && all_digits(body) && i64::MIN <= v <= i64::MAX {
        Some(v as i64)
    } else {
        None
    }
}

/// Parses bytes as a signed 64-bit integer, as std's `i64` parser does.
pub fn from_bytes(bytes: &[u8]) -> (r: Option<i64>)
    ensures
        r == int_of_bytes(bytes@),
{
    let negative = bytes.len() > 0 && bytes[0] == 45;
    let start: usize = if bytes.len() > 0 && (bytes[0] == 43 || bytes[0] == 45) {
        1
    } else {
        0
    };
    let ghost body = bytes@.subrange(start as int, bytes.len() as int);
    assert(start == 1 ==> body =~= bytes@.drop_first());
    assert(start == 0 ==> body =~= bytes@);
    if start == bytes.len() {
        assert(body.len() == 0);
        return None;
    }
    let mut acc: u128 = 0;
    let mut big = false;
    let mut i: usize = start;
    assert(bytes@.subrange(start as int, start as int) =~= Seq::<u8>::empty());
    while i < bytes.len()
        invariant
            start <= i <= bytes.len(),
            body == bytes@.subrange(start as int, bytes.len() as int),
            start == 1 ==> body == bytes@.drop_first(),
            start == 0 ==> body == bytes@,
            start == 1 <==> (bytes@.len() > 0 && is_sign(bytes@[0])),
            forall|k: int| start <= k < i ==> is_digit(bytes@[k]),
            big ==> digits_value(bytes@.subrange(start as int, i as int)) > 9223372036854775808,
            !big ==> acc == digits_value(bytes@.subrange(start as int, i as int)),
            !big ==> acc <= 10000000000000000009,
        decreases bytes.len() - i,
    {
        let c = bytes[i];
        if c < 48 || c > 57 {
            assert(body[i - start] == c);
            assert(!all_digits(body));
            return None;
        }
        let ghost prefix = bytes@.subrange(start as int, i as int);
        assert(bytes@.subrange(start as int, i + 1).drop_last() =~= prefix);
        if !big {
            if acc > 1000000000000000000 {
                big = true;
            } else {
                acc = acc * 10 + (c - 48) as u128;
            }
        }
        i = i + 1;
    }
    assert(bytes@.subrange(start as int, i as int) =~= body);
    assert forall|k: int| 0 <= k < body.len() implies is_digit(body[k]) by {
        assert(body[k] == bytes@[start + k]);
    }
    assert(all_digits(body));
    assert(negative == (bytes@.len() > 0 && bytes@[0] == 45));
    if big {
        return None;
    }
    assert(acc == digits_value(body));
    let v: i128 = if negative {
        -(acc as i128)
    } else {
        acc as i128
    };
    if -9223372036854775808 <= v && v <= 9223372036854775807 {
        Some(v as i64)
    } else {
        None
    }
}

/// The decimal digit for a value below ten.
pub open spec fn digit_char(d: int) -> char {
    ((d + 48) as u8) as char
}

/// The decimal digits of a natural number, most significant first.
pub open spec fn nat_digits(n: nat) -> Seq<char>
    decreases n,
{
    if n < 10 {
        seq![digit_char(n as int)]
    } else {
        nat_digits(n / 10).push(digit_char((n % 10) as int))
    }
}

/// The decimal text of an integer, with a leading `-` when negative.
pub open spec fn decimal_text(n: int) -> Seq<char> {
    if n < 0 {
        seq!['-'].add(nat_digits((-n) as nat))
    } else {
        nat_digits(n as nat)
    }
}

/// Relies on `<i64 as ToString>::to_string`: plain decimal notation.
#[verifier::external_body]
pub(crate) fn int_to_text(n: i64) -> (r: String)
    ensures
        r@ == decimal_text(n as int),
{
    n.to_string()
}

/// Relies on `<usize as ToString>::to_string`: plain decimal notation.
#[verifier::external_body]
pub(crate) fn count_to_text(n: usize) -> (r: String)
    ensures
        r@ == decimal_text(n as int),
{
    n.to_string()
}

/// What a lossy UTF-8 decoding of a byte string gives.
pub uninterp spec fn lossy_text(b: Seq<u8>) -> Seq<char>;

/// Relies on String::from_utf8_lossy: invalid sequences become U+FFFD.
#[verifier::external_body]
pub(crate) fn bytes_to_text(b: &[u8]) -> (r: String)
    ensures
        r@ == lossy_text(b@),
{
    String::from_utf8_lossy(b).into_owned()
}

/// `a` sorts no later than `b` in lexicographic byte order.
pub open spec fn lex_le(a: Seq<u8>, b: Seq<u8>) -> bool
    decreases a.len(),
{
    if a.len() == 0 {
        true
    } else if b.len() == 0 {
        false
    } else if a[0] != b[0] {
        a[0] < b[0]
    } else {
        lex_le(a.drop_first(), b.drop_first())
    }
}

pub proof fn lemma_lex_reflexive(a: Seq<u8>)
    ensures
        lex_le(a, a),
    decreases a.len(),
{
    if a.len() > 0 {
        lemma_lex_reflexive(a.drop_first());
    }
}

pub proof fn lemma_lex_total(a: Seq<u8>, b: Seq<u8>)
    ensures
        lex_le(a, b) || lex_le(b, a),
    decreases a.len(),
{
    if a.len() > 0 && b.len() > 0 && a[0] == b[0] {
        lemma_lex_total(a.drop_first(), b.drop_first());
    }
}

pub proof fn lemma_lex_antisymmetric(a: Seq<u8>, b: Seq<u8>)
    requires
        lex_le(a, b),
        lex_le(b, a),
    ensures
        a == b,
    decreases a.len(),
{
    if a.len() > 0 && b.len() > 0 {
        lemma_lex_antisymmetric(a.drop_first(), b.drop_first());
        assert(a =~= seq![a[0]] + a.drop_first());
        assert(b =~= seq![b[0]] + b.drop_first());
    } else {
        assert(a =~= b);
    }
}

pub proof fn lemma_lex_transitive(a: Seq<u8>, b: Seq<u8>, c: Seq<u8>)
    requires
        lex_le(a, b),
        lex_le(b, c),
    ensures
        lex_le(a, c),
    decreases a.len(),
{
    if a.len() > 0 && b.len() > 0 && c.len() > 0 && a[0] == b[0] && b[0] == c[0] {
        lemma_lex_transitive(a.drop_first(), b.drop_first(), c.drop_first());
    }
}

/// Compares two byte strings in lexicographic order.
pub fn bytes_le(a: &[u8], b: &[u8]) -> (r: bool)
    ensures
        r == lex_le(a@, b@),
{
    let mut i: usize = 0;
    assert(a@.skip(0) =~= a@);
    assert(b@.skip(0) =~= b@);
    while i < a.len() && i < b.len()
        invariant
            i <= a.len(),
            i <= b.len(),
            lex_le(a@, b@) == lex_le(a@.skip(i as int), b@.skip(i as int)),
        decreases a.len() - i,
    {
        if a[i] != b[i] {
            return a[i] < b[i];
        }
        assert(a@.skip(i as int).drop_first() =~= a@.skip(i + 1));
        assert(b@.skip(i as int).drop_first() =~= b@.skip(i + 1));
        i = i + 1;
    }
    i == a.len()
}

/// Copies a byte string into an owned vector.
pub fn copy_bytes(s: &[u8]) -> (r: Vec<u8>)
    ensures
        r@ == s@,
{
    let mut r: Vec<u8> = Vec::with_capacity(s.len());
    let mut i: usize = 0;
    while i < s.len()
        invariant
            i <= s.len(),
            r@ == s@.subrange(0, i as int),
        decreases s.len() - i,
    {
        r.push(s[i]);
        i = i + 1;
    }
    assert(r@ =~= s@);
    r
}

/// Tests two byte strings for equality.
pub fn bytes_eq(a: &[u8], b: &[u8]) -> (r: bool)
    ensures
        r == (a@ == b@),
{
    if a.len() != b.len() {
        return false;
    }
    let mut i: usize = 0;
    while i < a.len()
        invariant
            i <= a.len(),
            a.len() == b.len(),
            forall|k: int| 0 <= k < i ==> a@[k] == b@[k],
        decreases a.len() - i,
    {
        if a[i] != b[i] {
            return false;
        }
        i = i + 1;
    }
    assert(a@ =~= b@);
    true
}


pub open spec fn is_digit(c: u8) -> bool {
    48 <= c <= 57
}

pub open spec fn is_sign(c: u8) -> bool {
    c == 43 || c == 45
}

/// ASCII upper case folded to lower case; other bytes unchanged.
pub open spec fn fold_case(c: u8) -> u8 {
    if 65 <= c <= 90 {
        (c + 32) as u8
    } else {
        c
    }
}

/// The number of decimal digits at the start of `s`.
pub open spec fn lead_digits(s: Seq<u8>) -> nat
    decreases s.len(),
{
    if s.len() > 0 && is_digit(s[0]) {
        1 + lead_digits(s.drop_first())
    } else {
        0
    }
}

/// `s` spells the lower-case word `w`, ignoring ASCII case.
pub open spec fn word_is(s: Seq<u8>, w: Seq<u8>) -> bool {
    s.len() == w.len() && forall|k: int| 0 <= k < s.len() ==> fold_case(s[k]) == w[k]
}

/// Nothing, or `e` / `E`, an optional sign and one or more digits.
pub open spec fn exponent_ok(s: Seq<u8>) -> bool {
    s.len() == 0 || (fold_case(s[0]) == 101 && {
        let t = s.drop_first();
        let u = if t.len() > 0 && is_sign(t[0]) {
            t.drop_first()
        } else {
            t
        };
        u.len() > 0 && lead_digits(u) == u.len()
    })
}

/// Digits with an optional fraction (at least one digit in all), then an
/// optional exponent.
pub open spec fn number_ok(s: Seq<u8>) -> bool {
    let m = lead_digits(s);
    let after = s.skip(m as int);
    if after.len() > 0 && after[0] == 46 {
        let frac = after.drop_first();
        let f = lead_digits(frac);
        m + f >= 1 && exponent_ok(frac.skip(f as int))
    } else {
        m >= 1 && exponent_ok(after)
    }
}

/// The grammar that std's float parser accepts: an optional sign, then
/// `inf`, `infinity`, `nan` (any case) or a decimal number.
pub open spec fn float_text(s: Seq<u8>) -> bool {
    let body = if s.len() > 0 && is_sign(s[0]) {
        s.drop_first()
    } else {
        s
    };
    word_is(body, seq![105u8, 110, 102]) || word_is(body, seq![105u8, 110, 102, 105, 110, 105, 116, 121])
        || word_is(body, seq![110u8, 97, 110]) || number_ok(body)
}

fn lead_digits_from(s: &[u8], i: usize) -> (r: usize)
    requires
        i <= s.len(),
    ensures
        r == i + lead_digits(s@.skip(i as int)),
        r <= s.len(),
{
    let mut j: usize = i;
    while j < s.len() && 48 <= s[j] && s[j] <= 57
        invariant
            i <= j <= s.len(),
            lead_digits(s@.skip(i as int)) == (j - i) + lead_digits(s@.skip(j as int)),
        decreases s.len() - j,
    {
        assert(s@.skip(j as int).drop_first() =~= s@.skip(j + 1));
        j = j + 1;
    }
    j
}

fn word_at(s: &[u8], i: usize, w: &[u8]) -> (r: bool)
    requires
        i <= s.len(),
    ensures
        r == word_is(s@.skip(i as int), w@),
{
    if s.len() - i != w.len() {
        return false;
    }
    let mut k: usize = 0;
    while k < w.len()
        invariant
            k <= w.len(),
            s.len() - i == w.len(),
            forall|t: int| 0 <= t < k ==> fold_case(s@.skip(i as int)[t]) == w@[t],
        decreases w.len() - k,
    {
        let c = s[i + k];
        let folded: u8 = if 65 <= c && c <= 90 {
            c + 32
        } else {
            c
        };
        if folded != w[k] {
            return false;
        }
        k = k + 1;
    }
    true
}

fn exponent_at(s: &[u8], i: usize) -> (r: bool)
    requires
        i <= s.len(),
    ensures
        r == exponent_ok(s@.skip(i as int)),
{
    let ghost e = s@.skip(i as int);
    if i == s.len() {
        return true;
    }
    if s[i] != 101 && s[i] != 69 {
        return false;
    }
    assert(e.drop_first() =~= s@.skip(i + 1));
    let mut j: usize = i + 1;
    if j < s.len() && (s[j] == 43 || s[j] == 45) {
        assert(s@.skip(i + 1).drop_first() =~= s@.skip(i + 2));
        j = j + 1;
    }
    let end = lead_digits_from(s, j);
    j < s.len() && end == s.len()
}

fn number_at(s: &[u8], i: usize) -> (r: bool)
    requires
        i <= s.len(),
    ensures
        r == number_ok(s@.skip(i as int)),
{
    let ghost t = s@.skip(i as int);
    let m = lead_digits_from(s, i);
    assert(t.skip(m - i) =~= s@.skip(m as int));
    if m < s.len() && s[m] == 46 {
        assert(s@.skip(m as int).drop_first() =~= s@.skip(m + 1));
        let f = lead_digits_from(s, m + 1);
        assert(s@.skip(m + 1).skip(f - (m + 1)) =~= s@.skip(f as int));
        (m > i || f > m + 1) && exponent_at(s, f)
    } else {
        m > i && exponent_at(s, m)
    }
}

proof fn lemma_lead_digits_all(s: Seq<u8>)
    requires
        all_digits(s),
    ensures
        lead_digits(s) == s.len(),
    decreases s.len(),
{
    if s.len() > 0 {
        lemma_lead_digits_all(s.drop_first());
    }
}

/// Every integer in std's grammar is also a float in std's grammar.
pub proof fn lemma_integer_is_float(b: Seq<u8>)
    requires
        int_of_bytes(b).is_some(),
    ensures
        float_text(b),
{
    let body = if b.len() > 0 && is_sign(b[0]) {
        b.drop_first()
    } else {
        b
    };
    lemma_lead_digits_all(body);
    assert(body.skip(body.len() as int) =~= Seq::<u8>::empty());
    assert(number_ok(body));
}

/// Tests whether bytes are a decimal float in std's grammar.
pub fn is_float_text(s: &[u8]) -> (r: bool)
    ensures
        r == float_text(s@),
{
    let i: usize = if s.len() > 0 && (s[0] == 43 || s[0] == 45) {
        1
    } else {
        0
    };
    assert(s@.skip(0) =~= s@);
    assert(s@.len() > 0 ==> s@.skip(1) =~= s@.drop_first());
    let inf: [u8; 3] = [105, 110, 102];
    let infinity: [u8; 8] = [105, 110, 102, 105, 110, 105, 116, 121];
    let nan: [u8; 3] = [110, 97, 110];
    assert(inf@ =~= seq![105u8, 110, 102]);
    assert(infinity@ =~= seq![105u8, 110, 102, 105, 110, 105, 116, 121]);
    assert(nan@ =~= seq![110u8, 97, 110]);
    word_at(s, i, inf.as_slice()) || word_at(s, i, infinity.as_slice()) || word_at(s, i, nan.as_slice())
        || number_at(s, i)
}

} // verus!
