//! Character-level helpers shared by the key and label code.

use vstd::prelude::*;
use vstd::utf8::*;

verus! {

/// The ASCII digit for a value below ten.
pub open spec fn digit_char(d: nat) -> char {
    if d == 0 { '0' }
    else if d == 1 { '1' }
    else if d == 2 { '2' }
    else if d == 3 { '3' }
    else if d == 4 { '4' }
    else if d == 5 { '5' }
    else if d == 6 { '6' }
    else if d == 7 { '7' }
    else if d == 8 { '8' }
    else { '9' }
}

/// Decimal representation of a natural number, without leading zeros.
pub open spec fn decimal(n: nat) -> Seq<char>
    decreases n,
{
    if n < 10 {
        seq![digit_char(n)]
    } else {
        decimal(n / 10).push(digit_char(n % 10))
    }
}

fn digit_of(d: u64) -> (c: char)
    requires
        d < 10,
    ensures
        c == digit_char(d as nat),
{
    if d == 0 { '0' }
    else if d == 1 { '1' }
    else if d == 2 { '2' }
    else if d == 3 { '3' }
    else if d == 4 { '4' }
    else if d == 5 { '5' }
    else if d == 6 { '6' }
    else if d == 7 { '7' }
    else if d == 8 { '8' }
    else { '9' }
}

/// The decimal digits of `n`.
pub fn decimal_chars(n: u64) -> (v: Vec<char>)
    ensures
        v@ == decimal(n as nat),
    decreases n,
{
    if n < 10 {
        let mut v = Vec::new();
        v.push(digit_of(n));
        v
    } else {
        let mut v = decimal_chars(n / 10);
        v.push(digit_of(n % 10));
        v
    }
}

/// The characters of a string slice, in order.
pub fn chars_of(s: &str) -> (v: Vec<char>)
    ensures
        v@ == s@,
{
    let mut v: Vec<char> = Vec::new();
    for c in it: s.chars()
        invariant
            v@ == it.seq().take(it.index() as int),
    {
        v.push(c);
    }
    v
}


/// UTF-8 bytes of a character sequence (what `str::len` counts).
pub open spec fn utf8(s: Seq<char>) -> Seq<u8> {
    encode_utf8(s)
}

/// True when every character is ASCII.
pub open spec fn all_ascii(s: Seq<char>) -> bool {
    forall|i: int| 0 <= i < s.len() ==> (#[trigger] s[i] as u32) < 0x80
}

/// The bytes of a sequence of ASCII characters.
pub open spec fn ascii_bytes(s: Seq<char>) -> Seq<u8> {
    Seq::new(s.len(), |i: int| (s[i] as u32) as u8)
}

pub proof fn lemma_utf8_concat(a: Seq<char>, b: Seq<char>)
    ensures
        utf8(a + b) == utf8(a) + utf8(b),
    decreases a.len(),
{
    if a.len() == 0 {
        assert(a + b =~= b);
        assert(utf8(a) + utf8(b) =~= utf8(b));
    } else {
        lemma_utf8_concat(a.drop_first(), b);
        assert((a + b).drop_first() =~= a.drop_first() + b);
        assert((a + b)[0] == a[0]);
        assert(utf8(a + b) =~= encode_scalar(a[0] as u32) + (utf8(a.drop_first()) + utf8(b)));
        assert(utf8(a) + utf8(b) =~= encode_scalar(a[0] as u32) + (utf8(a.drop_first()) + utf8(b)));
    }
}

pub proof fn lemma_utf8_ascii_char(c: char)
    requires
        (c as u32) < 0x80,
    ensures
        encode_scalar(c as u32) == seq![(c as u32) as u8],
{
    let s = c as u32;
    assert((s & 0x7F) as u8 == s as u8) by (bit_vector)
        requires
            s < 0x80,
    ;
}

pub proof fn lemma_utf8_ascii(s: Seq<char>)
    requires
        all_ascii(s),
    ensures
        utf8(s) == ascii_bytes(s),
    decreases s.len(),
{
    if s.len() == 0 {
        assert(utf8(s) =~= ascii_bytes(s));
    } else {
        assert(all_ascii(s.drop_first()));
        lemma_utf8_ascii(s.drop_first());
        lemma_utf8_ascii_char(s[0]);
        assert(utf8(s) =~= ascii_bytes(s));
    }
}

pub proof fn lemma_utf8_injective(a: Seq<char>, b: Seq<char>)
    requires
        utf8(a) == utf8(b),
    ensures
        a == b,
{
    encode_utf8_decode_utf8(a);
    encode_utf8_decode_utf8(b);
}

pub proof fn lemma_decimal_ascii_digits(n: nat)
    ensures
        all_ascii(decimal(n)),
        decimal(n).len() >= 1,
        forall|i: int| 0 <= i < decimal(n).len() ==> '0' <= #[trigger] decimal(n)[i] <= '9',
    decreases n,
{
    if n >= 10 {
        lemma_decimal_ascii_digits(n / 10);
    }
}

/// Numeric value of a sequence of ASCII digit bytes.
pub open spec fn digits_value(d: Seq<u8>) -> nat
    decreases d.len(),
{
    if d.len() == 0 {
        0
    } else {
        digits_value(d.drop_last()) * 10 + (d.last() - 48) as nat
    }
}

/// True when every byte is an ASCII digit.
pub open spec fn all_digits(d: Seq<u8>) -> bool {
    forall|i: int| 0 <= i < d.len() ==> 48 <= #[trigger] d[i] <= 57
}

/// The part of a number after an optional leading `+`.
pub open spec fn unsigned_digits(b: Seq<u8>) -> Seq<u8> {
    if b.len() > 0 && b[0] == 43 { b.drop_first() } else { b }
}

/// What `str::parse::<usize>` accepts: an optional leading `+` followed by
/// at least one ASCII digit, with a value that fits in `usize`.
pub open spec fn parse_usize(b: Seq<u8>) -> Option<nat> {
    let d = unsigned_digits(b);
    if d.len() > 0 && all_digits(d) && digits_value(d) <= usize::MAX {
        Some(digits_value(d))
    } else {
        None
    }
}

pub proof fn lemma_digits_value_prefix(d: Seq<u8>, j: int)
    requires
        0 <= j <= d.len(),
        all_digits(d),
    ensures
        digits_value(d.take(j)) <= digits_value(d),
    decreases d.len() - j,
{
    if j < d.len() {
        lemma_digits_value_prefix(d, j + 1);
        assert(d.take(j + 1).drop_last() =~= d.take(j));
        assert(d.take(j + 1).last() == d[j]);
    } else {
        assert(d.take(j) =~= d);
    }
}

pub proof fn lemma_decimal_value(n: nat)
    ensures
        digits_value(ascii_bytes(decimal(n))) == n,
        all_digits(ascii_bytes(decimal(n))),
    decreases n,
{
    lemma_decimal_ascii_digits(n);
    let b = ascii_bytes(decimal(n));
    assert((digit_char(n % 10) as u32) as u8 - 48 == n % 10);
    if n < 10 {
        assert(b.drop_last() =~= Seq::<u8>::empty());
        assert(digits_value(Seq::<u8>::empty()) == 0);
        assert(b.last() == (digit_char(n % 10) as u32) as u8);
    } else {
        lemma_decimal_value(n / 10);
        lemma_decimal_ascii_digits(n / 10);
        assert(b.drop_last() =~= ascii_bytes(decimal(n / 10)));
        assert(b.last() == (digit_char(n % 10) as u32) as u8);
        assert(digits_value(b) == digits_value(b.drop_last()) * 10 + (b.last() - 48) as nat);
        assert((n / 10) * 10 + n % 10 == n);
    }
}

/// Parses the bytes of an ASCII decimal the way `str::parse::<usize>` does.
pub fn parse_usize_bytes(b: &[u8]) -> (r: Option<usize>)
    ensures
        match r {
            Some(v) => parse_usize(b@) == Some(v as nat),
            None => parse_usize(b@) is None,
        },
{
    let len = b.len();
    let start: usize = if len > 0 && b[0] == 43u8 { 1 } else { 0 };
    let ghost d = unsigned_digits(b@);
    assert(d =~= b@.skip(start as int));
    if start >= len {
        assert(d.len() == 0);
        assert(parse_usize(b@) is None);
        return None;
    }
    let mut acc: usize = 0;
    let mut i: usize = start;
    while i < len
        invariant
            start <= i <= len,
            len == b@.len(),
            d =~= b@.skip(start as int),
            d == unsigned_digits(b@),
            all_digits(d.take(i - start)),
            acc as nat == digits_value(d.take(i - start)),
        decreases len - i,
    {
        let c = b[i];
        assert(d[i - start] == c);
        if c < 48u8 || c > 57u8 {
            assert(!all_digits(d));
            assert(parse_usize(b@) is None);
            return None;
        }
        let digit = (c - 48u8) as usize;
        assert(d.take(i + 1 - start).drop_last() =~= d.take(i - start));
        assert(all_digits(d.take(i + 1 - start)));
        if acc > (usize::MAX - digit) / 10 {
            assert(digits_value(d.take(i + 1 - start)) > usize::MAX) by (nonlinear_arith)
                requires
                    digits_value(d.take(i + 1 - start)) == acc * 10 + digit,
                    acc > (usize::MAX - digit) / 10,
                    digit <= 9,
            ;
            proof {
                let k = i + 1 - start;
                if all_digits(d) {
                    lemma_digits_value_prefix(d, k as int);
                }
                assert(parse_usize(b@) is None);
            }
            return None;
        }
        acc = acc * 10 + digit;
        i = i + 1;
    }
    assert(d.take(len - start) =~= d);
    Some(acc)
}

/// `String::push`: appends one character at the end of the string.
#[verifier::external_body]
fn push_char(s: &mut String, c: char)
    ensures
        final(s)@ == old(s)@.push(c),
{
    s.push(c);
}

/// A string holding the given characters, in order.
pub fn string_of(chars: &Vec<char>) -> (s: String)
    ensures
        s@ == chars@,
{
    let mut s = String::new();
    for i in 0..chars.len()
        invariant
            s@ == chars@.take(i as int),
    {
        push_char(&mut s, chars[i]);
        assert(chars@.take(i + 1) =~= chars@.take(i as int).push(chars@[i as int]));
    }
    assert(chars@.take(chars.len() as int) =~= chars@);
    s
}

/// Appends the characters of `s` to `v`.
pub fn extend_chars(v: &mut Vec<char>, s: &str)
    ensures
        final(v)@ == old(v)@ + s@,
{
    let cs = chars_of(s);
    for i in 0..cs.len()
        invariant
            cs@ == s@,
            v@ == old(v)@ + cs@.take(i as int),
    {
        v.push(cs[i]);
        assert(cs@.take(i + 1) =~= cs@.take(i as int).push(cs@[i as int]));
    }
    assert(cs@.take(cs.len() as int) =~= cs@);
}

/// True when the two character sequences are equal.
pub fn chars_eq(a: &Vec<char>, b: &Vec<char>) -> (r: bool)
    ensures
        r == (a@ == b@),
{
    if a.len() != b.len() {
        return false;
    }
    let mut i: usize = 0;
    while i < a.len()
        invariant
            a.len() == b.len(),
            i <= a.len(),
            forall|j: int| 0 <= j < i ==> a@[j] == b@[j],
        decreases a.len() - i,
    {
        if a[i] != b[i] {
            return false;
        }
        i = i + 1;
    }
    assert(a@ =~= b@);
    true
}

/// True when the two strings hold the same characters.
pub fn str_eq(a: &str, b: &str) -> (r: bool)
    ensures
        r == (a@ == b@),
{
    let ca = chars_of(a);
    let cb = chars_of(b);
    chars_eq(&ca, &cb)
}

/// Byte-wise lexicographic order, the order of `String`'s `Ord`: `a` is a
/// proper prefix of `b`, or they first differ at a byte smaller in `a`.
pub open spec fn bytes_lt(a: Seq<u8>, b: Seq<u8>) -> bool {
    exists|k: int| #[trigger] lt_at(a, b, k)
}

/// `a` and `b` agree before `k`, and `k` decides that `a` comes first.
pub open spec fn lt_at(a: Seq<u8>, b: Seq<u8>, k: int) -> bool {
    &&& 0 <= k <= a.len()
    &&& k <= b.len()
    &&& forall|i: int| 0 <= i < k ==> a[i] == b[i]
    &&& ((k < a.len() && k < b.len() && a[k] < b[k]) || (k == a.len() && k < b.len()))
}

pub proof fn lemma_bytes_lt_transitive(a: Seq<u8>, b: Seq<u8>, c: Seq<u8>)
    requires
        bytes_lt(a, b),
        bytes_lt(b, c),
    ensures
        bytes_lt(a, c),
{
    let k1 = choose|k: int| lt_at(a, b, k);
    let k2 = choose|k: int| lt_at(b, c, k);
    if k1 < k2 {
        assert(lt_at(a, c, k1));
    } else if k2 < k1 {
        assert(lt_at(a, c, k2));
    } else {
        assert(lt_at(a, c, k1));
    }
}

pub proof fn lemma_bytes_lt_irreflexive(a: Seq<u8>)
    ensures
        !bytes_lt(a, a),
{
}

/// True when the bytes of `a` come before those of `b` (see `bytes_lt`).
pub fn bytes_less(a: &[u8], b: &[u8]) -> (r: bool)
    ensures
        r == bytes_lt(a@, b@),
{
    let mut i: usize = 0;
    while i < a.len() && i < b.len() && a[i] == b[i]
        invariant
            i <= a@.len(),
            i <= b@.len(),
            forall|j: int| 0 <= j < i ==> a@[j] == b@[j],
        decreases a@.len() - i,
    {
        i = i + 1;
    }
    let r = if i < a.len() && i < b.len() {
        a[i] < b[i]
    } else {
        i == a.len() && i < b.len()
    };
    if r {
        assert(lt_at(a@, b@, i as int));
    } else {
        assert forall|k: int| !lt_at(a@, b@, k) by {
            if lt_at(a@, b@, k) {
                if k < i {
                    assert(a@[k] == b@[k]);
                } else if k > i {
                    assert(a@[i as int] == b@[i as int]);
                }
            }
        }
    }
    r
}

/// Position of the first `c` in `s`, if any.
pub open spec fn first_index_of(s: Seq<char>, c: char) -> Option<int> {
    if exists|i: int| 0 <= i < s.len() && s[i] == c && forall|j: int| 0 <= j < i ==> s[j] != c {
        Some(choose|i: int| 0 <= i < s.len() && s[i] == c && forall|j: int| 0 <= j < i ==> s[j] != c)
    } else {
        None
    }
}

/// Position of the last `c` in `s`, if any.
pub open spec fn last_index_of(s: Seq<char>, c: char) -> Option<int> {
    if exists|i: int| 0 <= i < s.len() && s[i] == c && forall|j: int| i < j < s.len() ==> s[j] != c {
        Some(choose|i: int| 0 <= i < s.len() && s[i] == c && forall|j: int| i < j < s.len() ==> s[j] != c)
    } else {
        None
    }
}

/// Finds the first `c` in `s`.
pub fn find_char(s: &Vec<char>, c: char) -> (r: Option<usize>)
    ensures
        match r {
            Some(i) => first_index_of(s@, c) == Some(i as int) && i < s@.len() && s@[i as int] == c,
            None => first_index_of(s@, c) is None,
        },
{
    let mut i: usize = 0;
    while i < s.len()
        invariant
            i <= s@.len(),
            forall|j: int| 0 <= j < i ==> s@[j] != c,
        decreases s@.len() - i,
    {
        if s[i] == c {
            let ghost k = choose|k: int| 0 <= k < s@.len() && s@[k] == c && forall|j: int| 0 <= j < k ==> s@[j] != c;
            assert(k == i) by {
                if k < i {
                    assert(s@[k] != c);
                } else if k > i {
                    assert(s@[i as int] != c);
                }
            }
            return Some(i);
        }
        i = i + 1;
    }
    assert(!exists|k: int| 0 <= k < s@.len() && s@[k] == c && forall|j: int| 0 <= j < k ==> s@[j] != c) by {
        if exists|k: int| 0 <= k < s@.len() && s@[k] == c && forall|j: int| 0 <= j < k ==> s@[j] != c {
            let k = choose|k: int| 0 <= k < s@.len() && s@[k] == c && forall|j: int| 0 <= j < k ==> s@[j] != c;
            assert(s@[k] != c);
        }
    }
    None
}

/// Finds the last `c` in `s`.
pub fn rfind_char(s: &Vec<char>, c: char) -> (r: Option<usize>)
    ensures
        match r {
            Some(i) => last_index_of(s@, c) == Some(i as int) && i < s@.len() && s@[i as int] == c,
            None => last_index_of(s@, c) is None,
        },
{
    let mut i: usize = s.len();
    while i > 0
        invariant
            i <= s@.len(),
            forall|j: int| i <= j < s@.len() ==> s@[j] != c,
        decreases i,
    {
        if s[i - 1] == c {
            let p = i - 1;
            let ghost k = choose|k: int| 0 <= k < s@.len() && s@[k] == c && forall|j: int| k < j < s@.len() ==> s@[j] != c;
            assert(k == p) by {
                if k < p {
                    assert(s@[p as int] != c);
                } else if k > p {
                    assert(s@[k] != c);
                }
            }
            return Some(p);
        }
        i = i - 1;
    }
    assert(!exists|k: int| 0 <= k < s@.len() && s@[k] == c && forall|j: int| k < j < s@.len() ==> s@[j] != c) by {
        if exists|k: int| 0 <= k < s@.len() && s@[k] == c && forall|j: int| k < j < s@.len() ==> s@[j] != c {
            let k = choose|k: int| 0 <= k < s@.len() && s@[k] == c && forall|j: int| k < j < s@.len() ==> s@[j] != c;
            assert(s@[k] != c);
        }
    }
    None
}

/// The characters `s[a..b]` as a string.
pub fn substring(s: &Vec<char>, a: usize, b: usize) -> (r: String)
    requires
        a <= b <= s@.len(),
    ensures
        r@ == s@.subrange(a as int, b as int),
{
    let mut v: Vec<char> = Vec::new();
    let mut k: usize = a;
    while k < b
        invariant
            a <= k <= b,
            b <= s@.len(),
            v@ == s@.subrange(a as int, k as int),
        decreases b - k,
    {
        v.push(s[k]);
        assert(s@.subrange(a as int, k + 1) =~= s@.subrange(a as int, k as int).push(s@[k as int]));
        k = k + 1;
    }
    string_of(&v)
}

/// `String`'s order on texts: byte-wise order of their UTF-8 encodings.
pub open spec fn text_lt(a: Seq<char>, b: Seq<char>) -> bool {
    bytes_lt(utf8(a), utf8(b))
}

proof fn lemma_bytes_lt_total_from(a: Seq<u8>, b: Seq<u8>, k: int)
    requires
        a != b,
        0 <= k <= a.len(),
        k <= b.len(),
        forall|i: int| 0 <= i < k ==> a[i] == b[i],
    ensures
        bytes_lt(a, b) || bytes_lt(b, a),
    decreases a.len() - k,
{
    if k == a.len() && k == b.len() {
        assert(a =~= b);
    } else if k == a.len() {
        assert(lt_at(a, b, k));
    } else if k == b.len() {
        assert(lt_at(b, a, k));
    } else if a[k] < b[k] {
        assert(lt_at(a, b, k));
    } else if b[k] < a[k] {
        assert(lt_at(b, a, k));
    } else {
        lemma_bytes_lt_total_from(a, b, k + 1);
    }
}

/// Distinct texts are ordered one way or the other.
pub proof fn lemma_text_lt_total(a: Seq<char>, b: Seq<char>)
    requires
        a != b,
    ensures
        text_lt(a, b) || text_lt(b, a),
{
    if utf8(a) == utf8(b) {
        lemma_utf8_injective(a, b);
    }
    lemma_bytes_lt_total_from(utf8(a), utf8(b), 0);
}

/// The texts of a sequence of strings.
pub open spec fn views_of(v: Seq<String>) -> Seq<Seq<char>> {
    v.map_values(|s: String| s@)
}

/// Strictly increasing in `String`'s order.
pub open spec fn strictly_sorted(v: Seq<Seq<char>>) -> bool {
    forall|i: int, j: int| 0 <= i < j < v.len() ==> text_lt(#[trigger] v[i], #[trigger] v[j])
}

/// Sorts distinct strings in `String`'s order.
pub fn sort_strings(v: Vec<String>) -> (out: Vec<String>)
    requires
        views_of(v@).no_duplicates(),
    ensures
        strictly_sorted(views_of(out@)),
        forall|x: Seq<char>| views_of(out@).contains(x) <==> views_of(v@).contains(x),
{
    let ghost orig = views_of(v@);
    let mut remaining = v;
    let mut out: Vec<String> = Vec::new();
    while remaining.len() > 0
        invariant
            views_of(remaining@).no_duplicates(),
            strictly_sorted(views_of(out@)),
            forall|i: int, j: int| 0 <= i < out@.len() && 0 <= j < remaining@.len()
                ==> text_lt(#[trigger] out@[i]@, #[trigger] remaining@[j]@),
            forall|x: Seq<char>| views_of(out@).contains(x) || views_of(remaining@).contains(x) <==> orig.contains(x),
        decreases remaining@.len(),
    {
        let mut best: usize = 0;
        let mut k: usize = 1;
        while k < remaining.len()
            invariant
                1 <= k <= remaining@.len(),
                best < remaining@.len(),
                forall|j: int| 0 <= j < k ==> !text_lt(#[trigger] remaining@[j]@, remaining@[best as int]@),
            decreases remaining@.len() - k,
        {
            if bytes_less(remaining[k].as_str().as_bytes(), remaining[best].as_str().as_bytes()) {
                proof {
                    assert forall|j: int| 0 <= j < k implies !text_lt(#[trigger] remaining@[j]@, remaining@[k as int]@) by {
                        if text_lt(remaining@[j]@, remaining@[k as int]@) {
                            lemma_bytes_lt_transitive(utf8(remaining@[j]@), utf8(remaining@[k as int]@), utf8(remaining@[best as int]@));
                        }
                    }
                    lemma_bytes_lt_irreflexive(utf8(remaining@[k as int]@));
                }
                best = k;
            }
            k = k + 1;
        }
        let ghost rem_before = remaining@;
        let ghost out_before = out@;
        let x = remaining.remove(best);
        out.push(x);
        proof {
            let b = best as int;
            let nb = out_before.len() as int;
            let rb = views_of(rem_before);
            assert(remaining@ =~= rem_before.remove(b));
            assert(out@ =~= out_before.push(rem_before[b]));
            assert(views_of(remaining@) =~= rb.remove(b));
            assert(views_of(out@) =~= views_of(out_before).push(rb[b]));
            assert forall|j: int| 0 <= j < rem_before.len() && j != b implies text_lt(rem_before[b]@, #[trigger] rem_before[j]@) by {
                assert(rb[j] != rb[b]);
                lemma_text_lt_total(rem_before[b]@, rem_before[j]@);
            }
            assert(views_of(remaining@).no_duplicates()) by {
                assert forall|i: int, j: int| 0 <= i < j < views_of(remaining@).len()
                    implies views_of(remaining@)[i] != views_of(remaining@)[j] by {
                    let ii = if i < b { i } else { i + 1 };
                    let jj = if j < b { j } else { j + 1 };
                    assert(rb[ii] != rb[jj]);
                }
            }
            assert forall|i: int, j: int| 0 <= i < j < views_of(out@).len()
                implies text_lt(#[trigger] views_of(out@)[i], #[trigger] views_of(out@)[j]) by {
                assert(views_of(out@)[i] == out@[i]@);
                assert(views_of(out@)[j] == out@[j]@);
                if j == nb {
                    assert(out@[i] == out_before[i]);
                    assert(out@[j] == rem_before[b]);
                } else {
                    assert(views_of(out_before)[i] == out_before[i]@);
                    assert(views_of(out_before)[j] == out_before[j]@);
                }
            }
            assert forall|i: int, j: int| 0 <= i < out@.len() && 0 <= j < remaining@.len()
                implies text_lt(#[trigger] out@[i]@, #[trigger] remaining@[j]@) by {
                let jj = if j < b { j } else { j + 1 };
                assert(remaining@[j] == rem_before[jj]);
                if i < nb {
                    assert(out@[i] == out_before[i]);
                } else {
                    assert(out@[i] == rem_before[b]);
                }
            }
            assert forall|x: Seq<char>| views_of(out@).contains(x) || views_of(remaining@).contains(x) <==> orig.contains(x) by {
                if views_of(out@).contains(x) {
                    let i = choose|i: int| 0 <= i < views_of(out@).len() && views_of(out@)[i] == x;
                    if i < nb {
                        assert(views_of(out_before)[i] == x);
                    } else {
                        assert(rb[b] == x);
                    }
                }
                if views_of(remaining@).contains(x) {
                    let i = choose|i: int| 0 <= i < views_of(remaining@).len() && views_of(remaining@)[i] == x;
                    let ii = if i < b { i } else { i + 1 };
                    assert(rb[ii] == x);
                }
                if orig.contains(x) {
                    if views_of(out_before).contains(x) {
                        let i = choose|i: int| 0 <= i < views_of(out_before).len() && views_of(out_before)[i] == x;
                        assert(views_of(out@)[i] == x);
                    } else {
                        assert(rb.contains(x));
                        let i = choose|i: int| 0 <= i < rb.len() && rb[i] == x;
                        if i == b {
                            assert(views_of(out@)[nb] == x);
                        } else {
                            let ii = if i < b { i } else { i - 1 };
                            assert(views_of(remaining@)[ii] == x);
                        }
                    }
                }
            }
        }
    }
    assert(views_of(remaining@) =~= Seq::<Seq<char>>::empty());
    out
}

} // verus!
