//! Strings as sequences of characters, and the UTF-8 bytes behind them.

use vstd::prelude::*;
use vstd::utf8::*;

verus! {

broadcast use vstd::seq::group_seq_axioms;

/// How many bytes `s` takes in UTF-8.
pub open spec fn byte_len(s: Seq<char>) -> nat {
    encode_utf8(s).len()
}

/// How many bytes one character takes in UTF-8.
pub open spec fn char_bytes(c: char) -> nat {
    encode_scalar(c as u32).len()
}

/// Encoding distributes over concatenation.
pub proof fn lemma_encode_concat(a: Seq<char>, b: Seq<char>)
    ensures
        encode_utf8(a + b) == encode_utf8(a) + encode_utf8(b),
        byte_len(a + b) == byte_len(a) + byte_len(b),
    decreases a.len(),
{
    if a.len() == 0 {
        assert(a + b =~= b);
        assert(encode_utf8(a) + encode_utf8(b) =~= encode_utf8(b));
    } else {
        assert((a + b).drop_first() =~= a.drop_first() + b);
        lemma_encode_concat(a.drop_first(), b);
        assert(encode_utf8(a + b) =~= encode_utf8(a) + encode_utf8(b));
    }
}

/// Two strings with the same bytes are the same string.
pub proof fn lemma_encode_injective(a: Seq<char>, b: Seq<char>)
    requires
        encode_utf8(a) == encode_utf8(b),
    ensures
        a == b,
{
    encode_utf8_decode_utf8(a);
    encode_utf8_decode_utf8(b);
}

/// A single character: its bytes are the string's bytes.
pub proof fn lemma_encode_one(c: char)
    ensures
        encode_utf8(seq![c]) == encode_scalar(c as u32),
        byte_len(seq![c]) == char_bytes(c),
        1 <= char_bytes(c) <= 4,
{
    reveal_with_fuel(encode_utf8, 2);
    assert(seq![c].drop_first() =~= Seq::<char>::empty());
    assert(encode_utf8(seq![c]) =~= encode_scalar(c as u32));
}

/// Appending one character adds that character's bytes.
pub proof fn lemma_encode_push(s: Seq<char>, c: char)
    ensures
        encode_utf8(s.push(c)) == encode_utf8(s) + encode_scalar(c as u32),
        byte_len(s.push(c)) == byte_len(s) + char_bytes(c),
{
    assert(s.push(c) =~= s + seq![c]);
    lemma_encode_concat(s, seq![c]);
    lemma_encode_one(c);
}

/// A string is split at a character: the bytes are split at that character's offset.
pub proof fn lemma_encode_split(s: Seq<char>, k: int)
    requires
        0 <= k <= s.len(),
    ensures
        encode_utf8(s) == encode_utf8(s.take(k)) + encode_utf8(s.skip(k)),
        byte_len(s) == byte_len(s.take(k)) + byte_len(s.skip(k)),
        encode_utf8(s).take(byte_len(s.take(k)) as int) == encode_utf8(s.take(k)),
        encode_utf8(s).skip(byte_len(s.take(k)) as int) == encode_utf8(s.skip(k)),
{
    assert(s.take(k) + s.skip(k) =~= s);
    lemma_encode_concat(s.take(k), s.skip(k));
    assert(encode_utf8(s).take(byte_len(s.take(k)) as int) =~= encode_utf8(s.take(k)));
    assert(encode_utf8(s).skip(byte_len(s.take(k)) as int) =~= encode_utf8(s.skip(k)));
}

/// The offset of every character is a character boundary.
pub proof fn lemma_offset_is_boundary(s: Seq<char>, k: int)
    requires
        0 <= k <= s.len(),
    ensures
        is_char_boundary(encode_utf8(s), byte_len(s.take(k)) as int),
        byte_len(s.take(k)) <= byte_len(s),
    decreases k,
{
    encode_utf8_valid_utf8(s);
    lemma_encode_split(s, k);
    if k == 0 {
        assert(s.take(0) =~= Seq::<char>::empty());
    } else {
        encode_utf8_first_scalar(s);
        let rest = s.drop_first();
        lemma_offset_is_boundary(rest, k - 1);
        assert(s.take(k).drop_first() =~= rest.take(k - 1));
        assert(s.take(k)[0] == s[0]);
        lemma_encode_one(s[0]);
        assert(s =~= seq![s[0]] + rest);
        lemma_encode_concat(seq![s[0]], rest);
        assert(pop_first_scalar(encode_utf8(s)) =~= encode_utf8(rest));
        assert(byte_len(s.take(k)) == char_bytes(s[0]) + byte_len(rest.take(k - 1)));
    }
}

/// Every character boundary is the offset of some character.
pub proof fn lemma_boundary_is_offset(s: Seq<char>, i: int) -> (k: int)
    requires
        is_char_boundary(encode_utf8(s), i),
    ensures
        0 <= k <= s.len(),
        i == byte_len(s.take(k)),
    decreases s.len(),
{
    encode_utf8_valid_utf8(s);
    if i == 0 {
        assert(s.take(0) =~= Seq::<char>::empty());
        0
    } else {
        if s.len() == 0 {
            assert(encode_utf8(s).len() == 0);
            assert(false);
            0
        } else {
            encode_utf8_first_scalar(s);
            let rest = s.drop_first();
            lemma_encode_one(s[0]);
            assert(s =~= seq![s[0]] + rest);
            lemma_encode_concat(seq![s[0]], rest);
            assert(pop_first_scalar(encode_utf8(s)) =~= encode_utf8(rest));
            let k = lemma_boundary_is_offset(rest, i - char_bytes(s[0]));
            assert(s.take(k + 1) =~= seq![s[0]] + rest.take(k));
            lemma_encode_concat(seq![s[0]], rest.take(k));
            k + 1
        }
    }
}

/// Offsets of characters grow with the character's index.
pub proof fn lemma_offset_monotone(s: Seq<char>, a: int, b: int)
    requires
        0 <= a <= b <= s.len(),
    ensures
        byte_len(s.take(a)) + (b - a) <= byte_len(s.take(b)),
    decreases b - a,
{
    if a < b {
        lemma_offset_monotone(s, a, b - 1);
        assert(s.take(b) =~= s.take(b - 1).push(s[b - 1]));
        lemma_encode_push(s.take(b - 1), s[b - 1]);
        lemma_encode_one(s[b - 1]);
    }
}

/// `String::push` of std appends the given character.
pub assume_specification[ std::string::String::push ](s: &mut std::string::String, c: char)
    ensures
        final(s)@ == old(s)@.push(c),
;

/// The number of bytes in `s`.
pub fn str_len(s: &str) -> (n: usize)
    ensures
        n == byte_len(s@),
{
    s.as_bytes().len()
}

/// The characters of `s`, in order.
pub fn chars_of(s: &str) -> (v: Vec<char>)
    ensures
        v@ == s@,
{
    let mut v: Vec<char> = Vec::new();
    for c in it: s.chars()
        invariant
            it.seq() == s@,
            v@ == s@.take(it.index() as int),
    {
        v.push(c);
        assert(s@.take(it.index() + 1) =~= s@.take(it.index() as int).push(c));
    }
    assert(s@.take(s@.len() as int) =~= s@);
    v
}

/// Appends `part` to `out`, character by character.
pub fn push_chars(out: &mut String, part: &[char])
    ensures
        final(out)@ == old(out)@ + part@,
{
    let ghost before = out@;
    let mut i: usize = 0;
    while i < part.len()
        invariant
            i <= part@.len(),
            out@ == before + part@.take(i as int),
        decreases part@.len() - i,
    {
        out.push(part[i]);
        i += 1;
        assert(part@.take(i as int) =~= part@.take(i - 1).push(part@[i - 1]));
        assert(out@ =~= before + part@.take(i as int));
    }
    assert(part@.take(part@.len() as int) =~= part@);
}

/// The string made of the given characters.
pub fn string_of(part: &[char]) -> (s: String)
    ensures
        s@ == part@,
{
    let mut s = String::new();
    push_chars(&mut s, part);
    assert(s@ =~= part@);
    s
}

/// Whether two strings hold the same characters.
pub fn str_eq(a: &str, b: &str) -> (r: bool)
    ensures
        r == (a@ == b@),
{
    let x = a.as_bytes();
    let y = b.as_bytes();
    if x.len() != y.len() {
        return false;
    }
    let mut i: usize = 0;
    while i < x.len()
        invariant
            x@ == encode_utf8(a@),
            y@ == encode_utf8(b@),
            x@.len() == y@.len(),
            i <= x@.len(),
            x@.take(i as int) == y@.take(i as int),
        decreases x@.len() - i,
    {
        if x[i] != y[i] {
            return false;
        }
        i += 1;
        assert(x@.take(i as int) =~= x@.take(i - 1).push(x@[i - 1]));
        assert(y@.take(i as int) =~= y@.take(i - 1).push(y@[i - 1]));
    }
    proof {
        assert(x@.take(x@.len() as int) =~= x@);
        assert(y@.take(y@.len() as int) =~= y@);
        lemma_encode_injective(a@, b@);
    }
    true
}

/// The decimal digit of `d`.
pub open spec fn digit(d: nat) -> char {
    (48 + d) as char
}

/// `n` in decimal, without leading zeros.
pub open spec fn dec(n: nat) -> Seq<char>
    decreases n,
{
    if n < 10 {
        seq![digit(n)]
    } else {
        dec(n / 10).push(digit(n % 10))
    }
}

/// Appends `n` in decimal.
pub fn push_wide_dec(out: &mut String, n: u128)
    ensures
        final(out)@ == old(out)@ + dec(n as nat),
    decreases n,
{
    if n >= 10 {
        push_wide_dec(out, n / 10);
    }
    let d: u8 = (n % 10) as u8;
    out.push((48 + d) as char);
    assert(out@ =~= old(out)@ + dec(n as nat));
}

/// Appends `n` in decimal.
pub fn push_dec(out: &mut String, n: u64)
    ensures
        final(out)@ == old(out)@ + dec(n as nat),
{
    push_wide_dec(out, n as u128);
}

/// The bytes of a character other than the ASCII character `b` never equal `b`.
proof fn lemma_scalar_bytes(c: char, b: char)
    requires
        b <= '\u{7f}',
    ensures
        c == b ==> encode_scalar(c as u32) == seq![b as u8],
        c != b ==> !encode_scalar(c as u32).contains(b as u8),
{
    let v = c as u32;
    char_is_scalar(c);
    assert(v <= 0x7f ==> (v & 0x7f) as u8 == v) by (bit_vector);
    assert(0xc0u8 | ((v >> 6) & 0x1f) as u8 >= 0x80) by (bit_vector);
    assert(0xe0u8 | ((v >> 12) & 0x0f) as u8 >= 0x80) by (bit_vector);
    assert(0xf0u8 | ((v >> 18) & 0x07) as u8 >= 0x80) by (bit_vector);
    assert(0x80u8 | (v & 0x3f) as u8 >= 0x80) by (bit_vector);
    assert(0x80u8 | ((v >> 6) & 0x3f) as u8 >= 0x80) by (bit_vector);
    assert(0x80u8 | ((v >> 12) & 0x3f) as u8 >= 0x80) by (bit_vector);
    if c == b {
        assert(encode_scalar(v) =~= seq![b as u8]);
    }
}

/// An ASCII character that does not occur in `s` does not occur in its bytes.
pub proof fn lemma_absent_byte(s: Seq<char>, b: char)
    requires
        b <= '\u{7f}',
        forall|i: int| 0 <= i < s.len() ==> s[i] != b,
    ensures
        forall|i: int| 0 <= i < encode_utf8(s).len() ==> encode_utf8(s)[i] != b as u8,
    decreases s.len(),
{
    if s.len() > 0 {
        lemma_scalar_bytes(s[0], b);
        let rest = s.drop_first();
        assert forall|i: int| 0 <= i < rest.len() implies rest[i] != b by {
            assert(rest[i] == s[i + 1]);
        }
        lemma_absent_byte(rest, b);
        let head = encode_scalar(s[0] as u32);
        assert forall|i: int| 0 <= i < encode_utf8(s).len() implies encode_utf8(s)[i]
            != b as u8 by {
            if i < head.len() {
                assert(head.contains(head[i]));
            } else {
                assert(encode_utf8(s)[i] == encode_utf8(rest)[i - head.len()]);
            }
        }
    }
}

/// The first occurrence of an ASCII character is the first occurrence of its byte.
pub proof fn lemma_first_byte(s: Seq<char>, b: char, k: int)
    requires
        b <= '\u{7f}',
        0 <= k < s.len(),
        s[k] == b,
        forall|i: int| 0 <= i < k ==> s[i] != b,
    ensures
        byte_len(s.take(k)) < byte_len(s),
        byte_len(s.take(k + 1)) == byte_len(s.take(k)) + 1,
        encode_utf8(s)[byte_len(s.take(k)) as int] == b as u8,
        forall|i: int| 0 <= i < byte_len(s.take(k)) ==> encode_utf8(s)[i] != b as u8,
{
    lemma_encode_split(s, k);
    lemma_absent_byte(s.take(k), b);
    lemma_scalar_bytes(b, b);
    assert(s.skip(k)[0] == b);
    assert(s.take(k + 1) =~= s.take(k).push(b));
    lemma_encode_push(s.take(k), b);
    let bytes = encode_utf8(s);
    let n = byte_len(s.take(k)) as int;
    assert(bytes.skip(n)[0] == bytes[n]);
    assert forall|i: int| 0 <= i < n implies bytes[i] != b as u8 by {
        assert(bytes.take(n)[i] == bytes[i]);
    }
}

/// `memchr::memchr` of the crate `memchr`: the index of the first occurrence of `needle`, or
/// `None` where it does not occur.
#[verifier::external_body]
pub(crate) fn find_byte(needle: u8, haystack: &[u8]) -> (r: Option<usize>)
    ensures
        match r {
            Some(i) => i < haystack@.len() && haystack@[i as int] == needle && forall|j: int|
                0 <= j < i ==> haystack@[j] != needle,
            None => forall|j: int| 0 <= j < haystack@.len() ==> haystack@[j] != needle,
        },
{
    memchr::memchr(needle, haystack)
}

/// Splits `s` in front of its character `k`, whose byte offset is `mid`.
pub fn split_str<'a>(s: &'a str, mid: usize, Ghost(k): Ghost<int>) -> (r: (&'a str, &'a str))
    requires
        0 <= k <= s@.len(),
        mid == byte_len(s@.take(k)),
    ensures
        r.0@ == s@.take(k),
        r.1@ == s@.skip(k),
{
    proof {
        lemma_offset_is_boundary(s@, k);
        lemma_encode_split(s@, k);
    }
    let r = s.split_at(mid);
    proof {
        let bytes = encode_utf8(s@);
        assert(bytes.subrange(0, mid as int) =~= bytes.take(mid as int));
        assert(bytes.subrange(mid as int, bytes.len() as int) =~= bytes.skip(mid as int));
        lemma_encode_injective(r.0@, s@.take(k));
        lemma_encode_injective(r.1@, s@.skip(k));
    }
    r
}

/// Splits off the ASCII character `c` at the end of `line`, if it is there.
pub fn split_last<'a>(line: &'a str, c: char) -> (r: (&'a str, bool))
    requires
        c <= '\u{7f}',
    ensures
        r.1 == (line@.len() > 0 && line@.last() == c),
        r.0@ == if r.1 {
            line@.drop_last()
        } else {
            line@
        },
{
    let bytes = line.as_bytes();
    let n: usize = bytes.len();
    if n == 0 {
        proof {
            if line@.len() > 0 {
                lemma_offset_monotone(line@, 0, line@.len() as int);
                assert(line@.take(line@.len() as int) =~= line@);
            }
        }
        return (line, false);
    }
    let ghost k = line@.len() - 1;
    proof {
        let last = line@.last();
        assert(line@ =~= line@.drop_last().push(last));
        lemma_encode_push(line@.drop_last(), last);
        lemma_encode_one(last);
        lemma_scalar_bytes(last, c);
        let enc = encode_scalar(last as u32);
        assert(bytes@[n - 1] == enc[enc.len() - 1]);
        assert(enc.contains(enc[enc.len() - 1]));
        assert(line@.take(k) =~= line@.drop_last());
    }
    if bytes[n - 1] == c as u8 {
        let (content, _end) = split_str(line, n - 1, Ghost(k));
        (content, true)
    } else {
        (line, false)
    }
}

/// Splits off one line break at the end of `line`, if there is one.
pub fn split_newline<'a>(line: &'a str) -> (r: (&'a str, bool))
    ensures
        r.1 == (line@.len() > 0 && line@.last() == '\n'),
        r.0@ == if r.1 {
            line@.drop_last()
        } else {
            line@
        },
{
    split_last(line, '\n')
}

/// `s` without the run of `c` at its end.
pub open spec fn trim_end_of(s: Seq<char>, c: char) -> Seq<char>
    decreases s.len(),
{
    if s.len() > 0 && s.last() == c {
        trim_end_of(s.drop_last(), c)
    } else {
        s
    }
}

/// `s` without the run of `c` at its start.
pub open spec fn trim_start_of(s: Seq<char>, c: char) -> Seq<char>
    decreases s.len(),
{
    if s.len() > 0 && s[0] == c {
        trim_start_of(s.drop_first(), c)
    } else {
        s
    }
}

/// How many characters are left in front of the run of `c` that ends `s`.
pub fn trimmed_end(s: &[char], c: char) -> (n: usize)
    ensures
        n <= s@.len(),
        s@.take(n as int) == trim_end_of(s@, c),
{
    let mut n: usize = s.len();
    assert(s@.take(n as int) =~= s@);
    while n > 0 && s[n - 1] == c
        invariant
            n <= s@.len(),
            trim_end_of(s@, c) == trim_end_of(s@.take(n as int), c),
        decreases n,
    {
        assert(s@.take(n as int).drop_last() =~= s@.take(n - 1));
        n -= 1;
    }
    n
}

/// How many characters the run of `c` at the start of `s` has.
pub fn trimmed_start(s: &[char], c: char) -> (n: usize)
    ensures
        n <= s@.len(),
        s@.skip(n as int) == trim_start_of(s@, c),
{
    let mut n: usize = 0;
    assert(s@.skip(0) =~= s@);
    while n < s.len() && s[n] == c
        invariant
            n <= s@.len(),
            trim_start_of(s@, c) == trim_start_of(s@.skip(n as int), c),
        decreases s@.len() - n,
    {
        assert(s@.skip(n as int).drop_first() =~= s@.skip(n + 1));
        n += 1;
    }
    n
}

/// The characters with the Unicode property `White_Space`.
pub open spec fn is_space(c: char) -> bool {
    ||| '\u{9}' <= c && c <= '\u{d}'
    ||| c == ' '
    ||| c == '\u{85}'
    ||| c == '\u{a0}'
    ||| c == '\u{1680}'
    ||| '\u{2000}' <= c && c <= '\u{200a}'
    ||| c == '\u{2028}'
    ||| c == '\u{2029}'
    ||| c == '\u{202f}'
    ||| c == '\u{205f}'
    ||| c == '\u{3000}'
}

/// Whether `c` is white space.
pub fn space(c: char) -> (r: bool)
    ensures
        r == is_space(c),
{
    ('\u{9}' <= c && c <= '\u{d}') || c == ' ' || c == '\u{85}' || c == '\u{a0}' || c == '\u{1680}'
        || ('\u{2000}' <= c && c <= '\u{200a}') || c == '\u{2028}' || c == '\u{2029}' || c
        == '\u{202f}' || c == '\u{205f}' || c == '\u{3000}'
}

/// `s` without the white space at its start.
pub open spec fn trim_start(s: Seq<char>) -> Seq<char>
    decreases s.len(),
{
    if s.len() > 0 && is_space(s[0]) {
        trim_start(s.drop_first())
    } else {
        s
    }
}

/// `s` without the white space at its end.
pub open spec fn trim_end(s: Seq<char>) -> Seq<char>
    decreases s.len(),
{
    if s.len() > 0 && is_space(s.last()) {
        trim_end(s.drop_last())
    } else {
        s
    }
}

/// `s` without the white space at both its ends.
pub open spec fn trim(s: Seq<char>) -> Seq<char> {
    trim_end(trim_start(s))
}

/// How many leading characters of `s` are white space.
pub fn space_start(s: &[char]) -> (n: usize)
    ensures
        n <= s@.len(),
        s@.skip(n as int) == trim_start(s@),
        forall|i: int| 0 <= i < n ==> is_space(s@[i]),
        n < s@.len() ==> !is_space(s@[n as int]),
{
    let mut n: usize = 0;
    assert(s@.skip(0) =~= s@);
    while n < s.len() && space(s[n])
        invariant
            n <= s@.len(),
            trim_start(s@) == trim_start(s@.skip(n as int)),
            forall|i: int| 0 <= i < n ==> is_space(s@[i]),
        decreases s@.len() - n,
    {
        assert(s@.skip(n as int).drop_first() =~= s@.skip(n + 1));
        n += 1;
    }
    n
}

/// How many characters of `s` stand in front of the white space that ends it.
pub fn space_end(s: &[char]) -> (n: usize)
    ensures
        n <= s@.len(),
        s@.take(n as int) == trim_end(s@),
{
    let mut n: usize = s.len();
    assert(s@.take(n as int) =~= s@);
    while n > 0 && space(s[n - 1])
        invariant
            n <= s@.len(),
            trim_end(s@) == trim_end(s@.take(n as int)),
        decreases n,
    {
        assert(s@.take(n as int).drop_last() =~= s@.take(n - 1));
        n -= 1;
    }
    n
}

/// A part of `s`.
pub fn part(s: &[char], from: usize, to: usize) -> (r: &[char])
    requires
        from <= to <= s@.len(),
    ensures
        r@ == s@.subrange(from as int, to as int),
{
    vstd::slice::slice_subrange(s, from, to)
}

/// The part of `s` from `from` on.
pub fn part_from(s: &[char], from: usize) -> (r: &[char])
    requires
        from <= s@.len(),
    ensures
        r@ == s@.skip(from as int),
{
    let r = vstd::slice::slice_subrange(s, from, s.len());
    assert(r@ =~= s@.skip(from as int));
    r
}

/// The first `to` characters of `s`.
pub fn part_to(s: &[char], to: usize) -> (r: &[char])
    requires
        to <= s@.len(),
    ensures
        r@ == s@.take(to as int),
{
    let r = vstd::slice::slice_subrange(s, 0, to);
    assert(r@ =~= s@.take(to as int));
    r
}

/// `s` without the white space at both its ends.
pub fn trimmed(s: &[char]) -> (r: &[char])
    ensures
        r@ == trim(s@),
{
    let t = part_from(s, space_start(s));
    part_to(t, space_end(t))
}

/// Whether two runs of characters are the same.
pub fn chars_eq(a: &[char], b: &[char]) -> (r: bool)
    ensures
        r == (a@ == b@),
{
    if a.len() != b.len() {
        return false;
    }
    let mut i: usize = 0;
    while i < a.len()
        invariant
            a@.len() == b@.len(),
            i <= a@.len(),
            forall|j: int| 0 <= j < i ==> a@[j] == b@[j],
        decreases a@.len() - i,
    {
        if a[i] != b[i] {
            return false;
        }
        i += 1;
    }
    assert(a@ =~= b@);
    true
}

/// The concatenation of `parts`.
pub open spec fn flat(parts: Seq<Seq<char>>) -> Seq<char>
    decreases parts.len(),
{
    if parts.len() == 0 {
        Seq::empty()
    } else {
        parts[0] + flat(parts.drop_first())
    }
}

pub proof fn lemma_flat_push(parts: Seq<Seq<char>>, last: Seq<char>)
    ensures
        flat(parts.push(last)) == flat(parts) + last,
        byte_len(flat(parts.push(last))) == byte_len(flat(parts)) + byte_len(last),
    decreases parts.len(),
{
    if parts.len() == 0 {
        assert(parts.push(last).drop_first() =~= parts);
        assert(flat(parts.push(last)) =~= flat(parts) + last);
    } else {
        assert(parts.push(last).drop_first() =~= parts.drop_first().push(last));
        lemma_flat_push(parts.drop_first(), last);
        assert(flat(parts.push(last)) =~= flat(parts) + last);
    }
    lemma_encode_concat(flat(parts), last);
}

pub proof fn lemma_flat_first(parts: Seq<Seq<char>>)
    requires
        parts.len() > 0,
    ensures
        byte_len(flat(parts)) == byte_len(parts[0]) + byte_len(flat(parts.drop_first())),
{
    lemma_encode_concat(parts[0], flat(parts.drop_first()));
}

/// The contents of strings.
pub open spec fn texts(parts: Seq<String>) -> Seq<Seq<char>> {
    Seq::new(parts.len(), |i: int| parts[i]@)
}

/// The content of an optional string.
pub open spec fn opt_text(s: Option<String>) -> Option<Seq<char>> {
    match s {
        Some(t) => Some(t@),
        None => None,
    }
}

/// The content of an optional string.
pub open spec fn opt_view(s: Option<&str>) -> Option<Seq<char>> {
    match s {
        Some(t) => Some(t@),
        None => None,
    }
}

/// An optional string, borrowed.
pub fn opt_str<'a>(s: &'a Option<String>) -> (r: Option<&'a str>)
    ensures
        opt_view(r) == opt_text(*s),
{
    match s {
        Some(t) => Some(t.as_str()),
        None => None,
    }
}

/// Appends `parts` one behind the other.
pub fn join_texts(parts: &Vec<String>, separator: &str) -> (r: String)
    ensures
        r@ == joined(texts(parts@), separator@),
{
    let mut out = String::new();
    let mut i: usize = 0;
    let ghost all = texts(parts@);
    while i < parts.len()
        invariant
            i <= parts@.len(),
            all == texts(parts@),
            out@ == joined(all.take(i as int), separator@),
        decreases parts@.len() - i,
    {
        let ghost before = all.take(i as int);
        assert(all.take(i + 1) =~= before.push(all[i as int]));
        assert(all.take(i + 1).drop_last() =~= before);
        if i > 0 {
            out.append(separator);
        }
        out.append(parts[i].as_str());
        i += 1;
        assert(out@ =~= joined(all.take(i as int), separator@));
    }
    assert(all.take(all.len() as int) =~= all);
    out
}

/// `parts` with `separator` between them.
pub open spec fn joined(parts: Seq<Seq<char>>, separator: Seq<char>) -> Seq<char>
    decreases parts.len(),
{
    if parts.len() == 0 {
        Seq::empty()
    } else if parts.len() == 1 {
        parts[0]
    } else {
        joined(parts.drop_last(), separator) + separator + parts.last()
    }
}

/// The bytes that one character takes in UTF-8.
pub fn char_len(c: char) -> (n: usize)
    ensures
        n == char_bytes(c),
        1 <= n <= 4,
{
    let v: u32 = c as u32;
    proof {
        char_is_scalar(c);
    }
    if v <= 0x7f {
        1
    } else if v <= 0x7ff {
        2
    } else if v <= 0xffff {
        3
    } else {
        4
    }
}

/// The index of the character of `s` at the byte offset `off`, the end of `s` counted; `None` where
/// no character starts there.
pub open spec fn index_at(s: Seq<char>, off: nat) -> Option<nat>
    decreases s.len(),
{
    if off == 0 {
        Some(0)
    } else if s.len() == 0 || char_bytes(s[0]) > off {
        None
    } else {
        match index_at(s.drop_first(), (off - char_bytes(s[0])) as nat) {
            Some(k) => Some(k + 1),
            None => None,
        }
    }
}

/// The character at an offset lies within the string, and the offset is the bytes before it.
pub proof fn lemma_index_at(s: Seq<char>, off: nat)
    ensures
        index_at(s, off) matches Some(k) ==> k <= s.len() && byte_len(s.take(k as int)) == off,
    decreases s.len(),
{
    assert(s.take(0) =~= Seq::<char>::empty());
    if off > 0 && s.len() > 0 && char_bytes(s[0]) <= off {
        let rest = s.drop_first();
        let left = (off - char_bytes(s[0])) as nat;
        lemma_index_at(rest, left);
        if let Some(k) = index_at(rest, left) {
            assert(s.take(k as int + 1) =~= seq![s[0]] + rest.take(k as int));
            lemma_encode_concat(seq![s[0]], rest.take(k as int));
            lemma_encode_one(s[0]);
        }
    }
}

/// The offset of a character is where it is found.
pub proof fn lemma_index_of_offset(s: Seq<char>, k: int)
    requires
        0 <= k <= s.len(),
    ensures
        index_at(s, byte_len(s.take(k))) == Some(k as nat),
    decreases s.len(),
{
    assert(s.take(0) =~= Seq::<char>::empty());
    if k > 0 {
        let rest = s.drop_first();
        lemma_index_of_offset(rest, k - 1);
        assert(s.take(k) =~= seq![s[0]] + rest.take(k - 1));
        lemma_encode_concat(seq![s[0]], rest.take(k - 1));
        lemma_encode_one(s[0]);
    }
}

/// The index of the character at a byte offset.
pub fn find_index(s: &[char], off: usize) -> (r: Option<usize>)
    ensures
        match r {
            Some(k) => index_at(s@, off as nat) == Some(k as nat) && k <= s@.len(),
            None => index_at(s@, off as nat) is None,
        },
{
    let mut k: usize = 0;
    let mut left: usize = off;
    assert(s@.skip(0) =~= s@);
    while left > 0
        invariant
            k <= s@.len(),
            index_at(s@, off as nat) == match index_at(s@.skip(k as int), left as nat) {
                Some(x) => Some((x + k) as nat),
                None => None,
            },
        decreases left,
    {
        assert(k < s@.len() ==> s@.skip(k as int)[0] == s@[k as int]);
        if k == s.len() {
            return None;
        }
        let n = char_len(s[k]);
        if n > left {
            return None;
        }
        assert(s@.skip(k as int).drop_first() =~= s@.skip(k + 1));
        left -= n;
        k += 1;
    }
    Some(k)
}

/// `s` split at each `c`.
pub open spec fn split_on(s: Seq<char>, c: char) -> Seq<Seq<char>>
    decreases s.len(),
{
    if s.len() == 0 {
        seq![Seq::empty()]
    } else {
        let front = split_on(s.drop_last(), c);
        if s.last() == c {
            front.push(Seq::empty())
        } else {
            front.drop_last().push(front.last().push(s.last()))
        }
    }
}

/// Whether a character does not occur.
pub open spec fn lacks(s: Seq<char>, c: char) -> bool {
    forall|i: int| 0 <= i < s.len() ==> s[i] != c
}

pub proof fn lemma_split_none(s: Seq<char>, c: char)
    requires
        lacks(s, c),
    ensures
        split_on(s, c) == seq![s],
    decreases s.len(),
{
    if s.len() == 0 {
        assert(s =~= Seq::<char>::empty());
    } else {
        assert(lacks(s.drop_last(), c));
        lemma_split_none(s.drop_last(), c);
        assert(s.drop_last().push(s.last()) =~= s);
        assert(split_on(s, c) =~= seq![s]);
    }
}

pub proof fn lemma_split_some(s: Seq<char>, c: char)
    ensures
        split_on(s, c).len() > 0,
    decreases s.len(),
{
    if s.len() > 0 {
        lemma_split_some(s.drop_last(), c);
    }
}

/// What comes before the first `c` is the first part.
pub proof fn lemma_split_first(a: Seq<char>, b: Seq<char>, c: char)
    requires
        lacks(a, c),
    ensures
        split_on(a.push(c) + b, c) == seq![a] + split_on(b, c),
    decreases b.len(),
{
    let s = a.push(c) + b;
    let want = seq![a] + split_on(b, c);
    if b.len() == 0 {
        assert(s =~= a.push(c));
        assert(s.drop_last() =~= a);
        lemma_split_none(a, c);
        assert(split_on(s, c) =~= want);
    } else {
        let front = split_on(b.drop_last(), c);
        assert(s.drop_last() =~= a.push(c) + b.drop_last());
        lemma_split_first(a, b.drop_last(), c);
        lemma_split_some(b.drop_last(), c);
        let got = seq![a] + front;
        assert(got.last() == front.last());
        assert(got.drop_last() =~= seq![a] + front.drop_last());
        assert(split_on(s, c) =~= want);
    }
}

/// The contents of runs of characters.
pub open spec fn runs(parts: Seq<Vec<char>>) -> Seq<Seq<char>> {
    Seq::new(parts.len(), |i: int| parts[i]@)
}

/// `s` split at each `c`.
pub fn split_chars(s: &[char], c: char) -> (r: Vec<Vec<char>>)
    ensures
        runs(r@) == split_on(s@, c),
        r@.len() > 0,
{
    let mut r: Vec<Vec<char>> = Vec::new();
    let mut piece: Vec<char> = Vec::new();
    let mut i: usize = 0;
    assert(s@.take(0) =~= Seq::<char>::empty());
    assert(runs(r@).push(piece@) =~= seq![Seq::<char>::empty()]);
    while i < s.len()
        invariant
            i <= s@.len(),
            runs(r@).push(piece@) == split_on(s@.take(i as int), c),
        decreases s@.len() - i,
    {
        let ghost front = split_on(s@.take(i as int), c);
        proof {
            assert(s@.take(i + 1).drop_last() =~= s@.take(i as int));
            assert(front.last() == piece@);
            assert(front.drop_last() =~= runs(r@));
        }
        let ghost r0 = runs(r@);
        if s[i] == c {
            let ghost p = piece@;
            r.push(piece);
            piece = Vec::new();
            assert(runs(r@) =~= r0.push(p));
            assert(runs(r@).push(piece@) =~= front.push(Seq::empty()));
        } else {
            piece.push(s[i]);
        }
        i += 1;
    }
    assert(s@.take(s@.len() as int) =~= s@);
    let ghost p = piece@;
    let ghost r0 = runs(r@);
    r.push(piece);
    assert(runs(r@) =~= r0.push(p));
    r
}

/// An ASCII character takes one byte.
pub proof fn lemma_ascii_bytes(c: char)
    requires
        c <= '\u{7f}',
    ensures
        char_bytes(c) == 1,
{
    lemma_scalar_bytes(c, c);
}

/// The number that ASCII digits make.
pub open spec fn value_of(s: Seq<char>) -> nat
    decreases s.len(),
{
    if s.len() == 0 {
        0
    } else {
        (value_of(s.drop_last()) * 10 + (s.last() as int - '0' as int)) as nat
    }
}

/// Whether `s` is ASCII digits, at least one of them.
pub open spec fn ascii_digits(s: Seq<char>) -> bool {
    s.len() > 0 && forall|i: int| 0 <= i < s.len() ==> '0' <= #[trigger] s[i] && s[i] <= '9'
}

/// The number that a text stands for, if a `usize` can hold it.
pub open spec fn number(s: Seq<char>) -> Option<nat> {
    if ascii_digits(s) && value_of(s) <= usize::MAX {
        Some(value_of(s))
    } else {
        None
    }
}

/// Reads a number.
pub fn parse_number(s: &[char]) -> (r: Option<usize>)
    ensures
        match r {
            Some(n) => number(s@) == Some(n as nat),
            None => number(s@) is None,
        },
{
    if s.len() == 0 {
        return None;
    }
    let mut n: usize = 0;
    let mut i: usize = 0;
    let mut fits = true;
    assert(s@.take(0) =~= Seq::<char>::empty());
    while i < s.len()
        invariant
            i <= s@.len(),
            s@.len() > 0,
            forall|j: int| 0 <= j < i ==> '0' <= #[trigger] s@[j] && s@[j] <= '9',
            fits ==> n == value_of(s@.take(i as int)),
            !fits ==> value_of(s@.take(i as int)) > usize::MAX,
        decreases s@.len() - i,
    {
        let c = s[i];
        if !('0' <= c && c <= '9') {
            assert(!('0' <= s@[i as int] && s@[i as int] <= '9'));
            return None;
        }
        let d: usize = (c as u32 - '0' as u32) as usize;
        proof {
            assert(s@.take(i + 1).drop_last() =~= s@.take(i as int));
            assert(s@.take(i + 1).last() == c);
        }
        if fits {
            if n > usize::MAX / 10 || (n == usize::MAX / 10 && d > usize::MAX % 10) {
                fits = false;
            } else {
                n = n * 10 + d;
            }
        }
        i += 1;
    }
    assert(s@.take(s@.len() as int) =~= s@);
    if fits {
        Some(n)
    } else {
        None
    }
}

// Laws

/// Whether a text has another one in it.
pub open spec fn holds(text: Seq<char>, part: Seq<char>) -> bool {
    exists|a: Seq<char>, b: Seq<char>| text == #[trigger] (a + part + b)
}

/// Where a text stands between others it is in the whole.
pub proof fn lemma_holds(a: Seq<char>, part: Seq<char>, b: Seq<char>)
    ensures
        holds(a + part + b, part),
{
}

/// What is in a part is in the whole.
pub proof fn lemma_holds_within(a: Seq<char>, text: Seq<char>, b: Seq<char>, part: Seq<char>)
    requires
        holds(text, part),
    ensures
        holds(a + text + b, part),
{
    let (x, y) = choose|x: Seq<char>, y: Seq<char>| text == #[trigger] (x + part + y);
    assert(a + text + b =~= (a + x) + part + (y + b));
}

/// A part of a text that is put together is in the whole.
pub proof fn lemma_joined_holds(parts: Seq<Seq<char>>, separator: Seq<char>, i: int, part: Seq<char>)
    requires
        0 <= i < parts.len(),
        holds(parts[i], part),
    ensures
        holds(joined(parts, separator), part),
    decreases parts.len(),
{
    let whole = joined(parts, separator);
    if parts.len() == 1 {
    } else if i == parts.len() - 1 {
        let before = joined(parts.drop_last(), separator) + separator;
        assert(whole =~= before + parts[i] + Seq::<char>::empty());
        lemma_holds_within(before, parts[i], Seq::empty(), part);
    } else {
        lemma_joined_holds(parts.drop_last(), separator, i, part);
        let before = joined(parts.drop_last(), separator);
        assert(whole =~= Seq::<char>::empty() + before + (separator + parts.last()));
        lemma_holds_within(Seq::empty(), before, separator + parts.last(), part);
    }
}

/// A number is read back from its digits, which are digits alone and do not start with a zero unless
/// that is all.
pub proof fn lemma_dec_is_read_back(n: nat)
    ensures
        ascii_digits(dec(n)),
        value_of(dec(n)) == n,
        dec(n).len() > 1 ==> dec(n)[0] != '0',
        n > 0 ==> dec(n)[0] != '0',
    decreases n,
{
    let d = dec(n);
    if n < 10 {
        assert(d.drop_last() =~= Seq::<char>::empty());
        assert(value_of(d.drop_last()) == 0);
        assert(d.last() as int == 48 + n);
    } else {
        lemma_dec_is_read_back(n / 10);
        assert(d.drop_last() =~= dec(n / 10));
        assert(d.last() as int == 48 + n % 10);
        assert(d[0] == dec(n / 10)[0]);
        assert forall|i: int| 0 <= i < d.len() implies '0' <= #[trigger] d[i] && d[i] <= '9' by {
            if i < d.len() - 1 {
                assert(d[i] == dec(n / 10)[i]);
            }
        }
    }
}

/// Different numbers are written differently.
pub proof fn lemma_dec_is_injective(a: nat, b: nat)
    requires
        dec(a) == dec(b),
    ensures
        a == b,
{
    lemma_dec_is_read_back(a);
    lemma_dec_is_read_back(b);
}

/// Parts joined by a character make the text that they are parts of, and the character is in none of
/// them.
pub proof fn lemma_split_joins_back(s: Seq<char>, c: char)
    ensures
        split_on(s, c).len() > 0,
        joined(split_on(s, c), seq![c]) == s,
        forall|i: int| 0 <= i < split_on(s, c).len() ==> lacks(#[trigger] split_on(s, c)[i], c),
    decreases s.len(),
{
    let l = split_on(s, c);
    if s.len() == 0 {
        assert(joined(l, seq![c]) =~= s);
    } else {
        let t = s.drop_last();
        let front = split_on(t, c);
        lemma_split_joins_back(t, c);
        assert(s =~= t.push(s.last()));
        if s.last() == c {
            assert(l.drop_last() =~= front);
            assert(joined(l, seq![c]) =~= s);
            assert forall|i: int| 0 <= i < l.len() implies lacks(#[trigger] l[i], c) by {
                if i < front.len() {
                    assert(l[i] == front[i]);
                }
            }
        } else {
            assert(l.drop_last() =~= front.drop_last());
            assert(l.last() == front.last().push(s.last()));
            assert(lacks(front[front.len() - 1], c));
            if l.len() == 1 {
                assert(joined(l, seq![c]) =~= s);
            } else {
                assert(joined(l, seq![c]) =~= s);
            }
            assert forall|i: int| 0 <= i < l.len() implies lacks(#[trigger] l[i], c) by {
                if i < front.len() - 1 {
                    assert(l[i] == front[i]);
                }
            }
        }
    }
}

/// Parts that a character is in none of come back when they are joined by it and split again.
pub proof fn lemma_joined_splits_back(l: Seq<Seq<char>>, c: char)
    requires
        l.len() > 0,
        forall|i: int| 0 <= i < l.len() ==> lacks(#[trigger] l[i], c),
    ensures
        split_on(joined(l, seq![c]), c) == l,
    decreases l.len(),
{
    if l.len() == 1 {
        lemma_split_none(l[0], c);
        assert(seq![l[0]] =~= l);
    } else {
        let front = l.drop_last();
        assert forall|i: int| 0 <= i < front.len() implies lacks(#[trigger] front[i], c) by {
            assert(front[i] == l[i]);
        }
        lemma_joined_splits_back(front, c);
        assert(lacks(l[l.len() - 1], c));
        lemma_split_last(joined(front, seq![c]), l.last(), c);
        assert(joined(l, seq![c]) =~= joined(front, seq![c]).push(c) + l.last());
        assert(front.push(l.last()) =~= l);
    }
}

/// What comes behind the last `c` is the last part.
pub proof fn lemma_split_last(a: Seq<char>, b: Seq<char>, c: char)
    requires
        lacks(b, c),
    ensures
        split_on(a.push(c) + b, c) == split_on(a, c).push(b),
    decreases b.len(),
{
    let s = a.push(c) + b;
    if b.len() == 0 {
        assert(s =~= a.push(c));
        assert(s.drop_last() =~= a);
        assert(b =~= Seq::<char>::empty());
    } else {
        assert(s.drop_last() =~= a.push(c) + b.drop_last());
        assert(lacks(b.drop_last(), c));
        lemma_split_last(a, b.drop_last(), c);
        let front = split_on(a, c).push(b.drop_last());
        assert(s.last() == b.last());
        assert(front.drop_last() =~= split_on(a, c));
        assert(b.drop_last().push(b.last()) =~= b);
        assert(split_on(s, c) =~= split_on(a, c).push(b));
    }
}

/// Runs of parts that are joined are joined with one more separator between them.
pub proof fn lemma_joined_concat(a: Seq<Seq<char>>, b: Seq<Seq<char>>, c: Seq<char>)
    requires
        a.len() > 0,
        b.len() > 0,
    ensures
        joined(a + b, c) == joined(a, c) + c + joined(b, c),
    decreases b.len(),
{
    let l = a + b;
    if b.len() == 1 {
        assert(l.drop_last() =~= a);
        assert(l.last() == b[0]);
    } else {
        lemma_joined_concat(a, b.drop_last(), c);
        assert(l.drop_last() =~= a + b.drop_last());
        assert(joined(l, c) =~= joined(a, c) + c + joined(b, c));
    }
}

/// What is trimmed is white space alone, and what is left does not start or end with any.
pub proof fn lemma_trim_leaves_the_middle(s: Seq<char>)
    ensures
        exists|a: Seq<char>, b: Seq<char>|
            s == #[trigger] (a + trim(s) + b) && (forall|i: int|
                0 <= i < a.len() ==> is_space(#[trigger] a[i])) && (forall|i: int|
                0 <= i < b.len() ==> is_space(#[trigger] b[i])),
        trim(s).len() > 0 ==> !is_space(trim(s)[0]) && !is_space(trim(s).last()),
{
    let a = lemma_start_trimmed(s);
    let b = lemma_end_trimmed(trim_start(s));
    assert(s =~= a + trim(s) + b);
    if trim(s).len() > 0 {
        assert(trim(s)[0] == trim_start(s)[0]);
    }
}

proof fn lemma_start_trimmed(s: Seq<char>) -> (a: Seq<char>)
    ensures
        s == a + trim_start(s),
        forall|i: int| 0 <= i < a.len() ==> is_space(#[trigger] a[i]),
        trim_start(s).len() > 0 ==> !is_space(trim_start(s)[0]),
    decreases s.len(),
{
    if s.len() > 0 && is_space(s[0]) {
        let a = lemma_start_trimmed(s.drop_first());
        let r = seq![s[0]] + a;
        assert(s =~= seq![s[0]] + s.drop_first());
        assert(s =~= r + trim_start(s)) by {
            assert(seq![s[0]] + (a + trim_start(s)) =~= r + trim_start(s));
        }
        r
    } else {
        assert(s =~= Seq::<char>::empty() + s);
        Seq::empty()
    }
}

proof fn lemma_end_trimmed(s: Seq<char>) -> (b: Seq<char>)
    ensures
        s == trim_end(s) + b,
        forall|i: int| 0 <= i < b.len() ==> is_space(#[trigger] b[i]),
        trim_end(s).len() > 0 ==> !is_space(trim_end(s).last()),
    decreases s.len(),
{
    if s.len() > 0 && is_space(s.last()) {
        let b = lemma_end_trimmed(s.drop_last());
        let r = b.push(s.last());
        assert(s =~= s.drop_last().push(s.last()));
        assert((trim_end(s) + b).push(s.last()) =~= trim_end(s) + r);
        r
    } else {
        assert(s =~= s + Seq::<char>::empty());
        Seq::empty()
    }
}

} // verus!
