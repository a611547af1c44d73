//! Characters, segments, digits: the text handling that the rest of the
//! library is written over. Every function is specified on `Seq<char>`.
use vstd::prelude::*;
use vstd::string::*;
use vstd::utf8::*;

verus! {

/// `String::push`: the string afterwards is the string before with `c` behind it.
pub assume_specification[ String::push ](s: &mut String, c: char)
    ensures
        final(s)@ == old(s)@.push(c),
;

/// The texts of a sequence of strings.
pub open spec fn texts(v: Seq<String>) -> Seq<Seq<char>> {
    Seq::new(v.len(), |i: int| v[i]@)
}

/// An optional text.
pub open spec fn given(s: Option<&str>) -> Option<Seq<char>> {
    match s {
        Some(t) => Some(t@),
        None => None,
    }
}

/// The contents of a sequence of character vectors.
pub open spec fn contents(v: Seq<Vec<char>>) -> Seq<Seq<char>> {
    Seq::new(v.len(), |i: int| v[i]@)
}

/// The index of the first `c` in `s`, or the length of `s` if there is none.
pub open spec fn find(s: Seq<char>, c: char) -> nat
    decreases s.len(),
{
    if s.len() == 0 || s[0] == c {
        0
    } else {
        1 + find(s.drop_first(), c)
    }
}

/// The pieces of `s` between the occurrences of `sep`; never empty.
pub open spec fn split(s: Seq<char>, sep: char) -> Seq<Seq<char>>
    decreases s.len(),
{
    let i = find(s, sep) as int;
    if i < s.len() {
        seq![s.take(i)] + split(s.skip(i + 1), sep)
    } else {
        seq![s]
    }
}

/// The pieces joined with `sep` between them.
pub open spec fn join(pieces: Seq<Seq<char>>, sep: char) -> Seq<char>
    decreases pieces.len(),
{
    if pieces.len() == 0 {
        Seq::empty()
    } else if pieces.len() == 1 {
        pieces[0]
    } else {
        pieces[0] + seq![sep] + join(pieces.drop_first(), sep)
    }
}

/// `find` is the first occurrence, or the length when there is none.
pub proof fn lemma_find(s: Seq<char>, c: char)
    ensures
        find(s, c) <= s.len(),
        find(s, c) < s.len() ==> s[find(s, c) as int] == c,
        forall|j: int| 0 <= j < find(s, c) ==> s[j] != c,
        find(s, c) < s.len() <==> s.contains(c),
    decreases s.len(),
{
    if s.len() != 0 && s[0] != c {
        let t = s.drop_first();
        lemma_find(t, c);
        assert forall|j: int| 0 <= j < find(s, c) implies s[j] != c by {
            if j > 0 {
                assert(s[j] == t[j - 1]);
            }
        }
        if t.contains(c) {
            let k = choose|k: int| 0 <= k < t.len() && t[k] == c;
            assert(s[k + 1] == c);
        }
        if s.contains(c) {
            let k = choose|k: int| 0 <= k < s.len() && s[k] == c;
            assert(t[k - 1] == c);
        }
    } else if s.len() != 0 {
        assert(s.contains(s[0]));
    }
}

/// A position that holds `c` with none before it is what `find` returns.
pub proof fn lemma_find_is(s: Seq<char>, c: char, i: int)
    requires
        0 <= i <= s.len(),
        i < s.len() ==> s[i] == c,
        forall|j: int| 0 <= j < i ==> s[j] != c,
    ensures
        find(s, c) == i,
{
    lemma_find(s, c);
    if find(s, c) < i {
        assert(s[find(s, c) as int] == c);
    }
}

/// Splitting text that is a piece, a separator and a rest gives the piece and
/// then the pieces of the rest.
pub proof fn lemma_split_first(piece: Seq<char>, sep: char, rest: Seq<char>)
    requires
        !piece.contains(sep),
    ensures
        split(piece + seq![sep] + rest, sep) == seq![piece] + split(rest, sep),
{
    let s = piece + seq![sep] + rest;
    assert forall|j: int| 0 <= j < piece.len() implies s[j] != sep by {
        assert(s[j] == piece[j]);
        assert(piece.contains(piece[j]));
    }
    lemma_find_is(s, sep, piece.len() as int);
    assert(s.take(piece.len() as int) =~= piece);
    assert(s.skip(piece.len() as int + 1) =~= rest);
}

/// Text without the separator is one piece.
pub proof fn lemma_split_single(piece: Seq<char>, sep: char)
    requires
        !piece.contains(sep),
    ensures
        split(piece, sep) == seq![piece],
{
    lemma_find(piece, sep);
}

/// There is always at least one piece.
pub proof fn lemma_split_nonempty(s: Seq<char>, sep: char)
    ensures
        split(s, sep).len() > 0,
{
}

/// No piece holds the separator.
pub proof fn lemma_split_pieces(s: Seq<char>, sep: char)
    ensures
        forall|i: int|
            0 <= i < split(s, sep).len() ==> !(#[trigger] split(s, sep)[i]).contains(sep),
    decreases s.len(),
{
    lemma_find(s, sep);
    let i = find(s, sep) as int;
    if i < s.len() {
        lemma_split_pieces(s.skip(i + 1), sep);
        let t = split(s.skip(i + 1), sep);
        assert forall|k: int| 0 <= k < split(s, sep).len() implies !(#[trigger] split(
            s,
            sep,
        )[k]).contains(sep) by {
            if k > 0 {
                assert(split(s, sep)[k] == t[k - 1]);
            }
        }
    }
}

/// Joining the pieces of a text gives the text back.
pub proof fn lemma_join_split(s: Seq<char>, sep: char)
    ensures
        join(split(s, sep), sep) == s,
    decreases s.len(),
{
    lemma_find(s, sep);
    let i = find(s, sep) as int;
    if i < s.len() {
        lemma_join_split(s.skip(i + 1), sep);
        lemma_split_nonempty(s.skip(i + 1), sep);
        assert(split(s, sep).drop_first() =~= split(s.skip(i + 1), sep));
        assert(s =~= s.take(i) + seq![sep] + s.skip(i + 1));
    }
}

/// The characters of a string slice.
pub fn chars_of(s: &str) -> (r: Vec<char>)
    ensures
        r@ == s@,
{
    let mut r: Vec<char> = Vec::new();
    for c in it: s.chars()
        invariant
            it.seq() == s@,
            r@ == s@.take(it.index() as int),
    {
        r.push(c);
        assert(s@.take(it.index() + 1) =~= s@.take(it.index() as int).push(c));
    }
    assert(s@.take(s@.len() as int) =~= s@);
    r
}

/// The string with the given characters.
pub fn string_of(chars: &[char]) -> (r: String)
    ensures
        r@ == chars@,
{
    let mut r = String::new();
    let mut i: usize = 0;
    while i < chars.len()
        invariant
            i <= chars.len(),
            r@ == chars@.take(i as int),
        decreases chars.len() - i,
    {
        r.push(chars[i]);
        i += 1;
        assert(chars@.take(i as int) =~= chars@.take(i - 1).push(chars@[i - 1]));
    }
    assert(chars@.take(i as int) =~= chars@);
    r
}

/// Whether two runs of characters are the same.
pub fn chars_eq(a: &[char], b: &[char]) -> (r: bool)
    ensures
        r == (a@ == b@),
{
    if a.len() != b.len() {
        return false;
    }
    let mut i: usize = 0;
    while i < a.len()
        invariant
            i <= a.len(),
            a.len() == b.len(),
            forall|j: int| 0 <= j < i ==> a@[j] == b@[j],
        decreases a.len() - i,
    {
        if a[i] != b[i] {
            assert(a@[i as int] != b@[i as int]);
            return false;
        }
        i += 1;
    }
    assert(a@ =~= b@);
    true
}

/// The pieces between the occurrences of `sep`.
pub fn split_chars(s: &[char], sep: char) -> (r: Vec<Vec<char>>)
    ensures
        contents(r@) == split(s@, sep),
{
    let mut r: Vec<Vec<char>> = Vec::new();
    let mut cur: Vec<char> = Vec::new();
    let mut i: usize = 0;
    assert(cur@ + s@.skip(0) =~= s@);
    assert(contents(r@) + split(s@, sep) =~= split(s@, sep));
    while i < s.len()
        invariant
            i <= s.len(),
            !cur@.contains(sep),
            split(s@, sep) == contents(r@) + split(cur@ + s@.skip(i as int), sep),
        decreases s.len() - i,
    {
        let c = s[i];
        let ghost before = cur@;
        let ghost done = contents(r@);
        let ghost rest = s@.skip(i + 1);
        assert(before + s@.skip(i as int) =~= before + seq![c] + rest);
        if c == sep {
            proof {
                lemma_split_first(before, sep, rest);
            }
            r.push(cur);
            assert(contents(r@) =~= done.push(before));
            cur = Vec::new();
            assert(cur@ + rest =~= rest);
            assert(done + (seq![before] + split(rest, sep)) =~= done.push(before) + split(
                rest,
                sep,
            ));
        } else {
            cur.push(c);
            assert(before + seq![c] + rest =~= cur@ + rest);
            assert forall|k: int| 0 <= k < cur@.len() implies cur@[k] != sep by {
                if k < before.len() {
                    assert(before.contains(before[k]));
                }
            }
        }
        i += 1;
    }
    let ghost done = contents(r@);
    let ghost last = cur@;
    assert(last + s@.skip(i as int) =~= last);
    proof {
        lemma_split_single(last, sep);
    }
    r.push(cur);
    assert(contents(r@) =~= done + seq![last]);
    r
}

/// Two texts with the same UTF-8 bytes are the same text.
pub proof fn lemma_utf8_injective(a: Seq<char>, b: Seq<char>)
    requires
        encode_utf8(a) == encode_utf8(b),
    ensures
        a == b,
{
    encode_utf8_decode_utf8(a);
    encode_utf8_decode_utf8(b);
}

/// Whether two runs of bytes are the same.
pub fn bytes_eq(a: &[u8], b: &[u8]) -> (r: bool)
    ensures
        r == (a@ == b@),
{
    if a.len() != b.len() {
        return false;
    }
    let mut i: usize = 0;
    while i < a.len()
        invariant
            i <= a.len(),
            a.len() == b.len(),
            forall|j: int| 0 <= j < i ==> a@[j] == b@[j],
        decreases a.len() - i,
    {
        if a[i] != b[i] {
            assert(a@[i as int] != b@[i as int]);
            return false;
        }
        i += 1;
    }
    assert(a@ =~= b@);
    true
}

/// Whether two string slices are the same text.
pub fn str_eq(a: &str, b: &str) -> (r: bool)
    ensures
        r == (a@ == b@),
{
    let r = bytes_eq(a.as_bytes(), b.as_bytes());
    proof {
        if r {
            lemma_utf8_injective(a@, b@);
        }
    }
    r
}

/// The decimal digit for `d`.
pub open spec fn digit(d: nat) -> char {
    (48 + d) as char
}

/// The decimal notation of `n`, without leading zeros.
pub open spec fn decimal(n: nat) -> Seq<char>
    decreases n,
{
    if n < 10 {
        seq![digit(n)]
    } else {
        decimal(n / 10).push(digit(n % 10))
    }
}

/// The decimal notation of a number.
pub fn decimal_of(n: u64) -> (r: String)
    ensures
        r@ == decimal(n as nat),
    decreases n,
{
    if n < 10 {
        let mut r = String::new();
        r.push((48u8 + n as u8) as char);
        assert(r@ =~= decimal(n as nat));
        r
    } else {
        let mut r = decimal_of(n / 10);
        r.push((48u8 + (n % 10) as u8) as char);
        r
    }
}

/// Whether `c` is one of the ten decimal digits.
pub open spec fn is_digit(c: char) -> bool {
    '0' <= c <= '9'
}

/// The number that a run of decimal digits stands for.
pub open spec fn digits_value(s: Seq<char>) -> nat
    decreases s.len(),
{
    if s.len() == 0 {
        0
    } else {
        digits_value(s.drop_last()) * 10 + (s.last() as nat - 48) as nat
    }
}

/// Whether a text is nothing but decimal digits.
pub open spec fn all_digits(s: Seq<char>) -> bool {
    forall|i: int| 0 <= i < s.len() ==> is_digit(#[trigger] s[i])
}

/// A text without the plus sign it may begin with.
pub open spec fn unsigned_part(s: Seq<char>) -> Seq<char> {
    if s.len() > 0 && s[0] == '+' {
        s.drop_first()
    } else {
        s
    }
}

/// What unsigned decimal text stands for: at least one digit, with at most one
/// plus sign in front.
pub open spec fn parse_decimal(s: Seq<char>) -> Option<nat> {
    let body = unsigned_part(s);
    if body.len() > 0 && all_digits(body) {
        Some(digits_value(body))
    } else {
        None
    }
}

/// What unsigned decimal text stands for if it is at most `max`.
pub open spec fn parse_bounded(s: Seq<char>, max: nat) -> Option<nat> {
    match parse_decimal(s) {
        Some(v) => if v <= max {
            Some(v)
        } else {
            None
        },
        None => None,
    }
}

/// Reads unsigned decimal text, as `str::parse` reads it for the unsigned
/// integer type whose largest value is `max`.
pub fn parse_number(s: &str, max: u64) -> (r: Option<u64>)
    ensures
        (match r {
            Some(v) => Some(v as nat),
            None => None,
        }) == parse_bounded(s@, max as nat),
{
    let chars = chars_of(s);
    let start: usize = if chars.len() > 0 && chars[0] == '+' {
        1
    } else {
        0
    };
    let ghost body = unsigned_part(s@);
    assert(body =~= s@.skip(start as int));
    if chars.len() == start {
        return None;
    }
    let mut i: usize = start;
    let mut v: u64 = 0;
    let mut over: bool = false;
    assert(body.take(0) =~= Seq::<char>::empty());
    while i < chars.len()
        invariant
            start <= i <= chars.len(),
            chars@ == s@,
            body == s@.skip(start as int),
            body == unsigned_part(s@),
            forall|k: int| 0 <= k < i - start ==> is_digit(#[trigger] body[k]),
            !over ==> v == digits_value(body.take(i - start)) && v <= max,
            over ==> digits_value(body.take(i - start)) > max,
        decreases chars.len() - i,
    {
        let c = chars[i];
        assert(c == body[i - start]);
        if c < '0' || c > '9' {
            assert(!is_digit(body[i - start]));
            return None;
        }
        let d: u64 = c as u64 - 48;
        assert(body.take(i + 1 - start).drop_last() =~= body.take(i - start));
        assert(digits_value(body.take(i + 1 - start)) == digits_value(body.take(i - start)) * 10
            + d);
        if !over {
            if v > max / 10 || d > max - v * 10 {
                over = true;
            } else {
                v = v * 10 + d;
            }
        }
        i += 1;
    }
    assert(body.take(i - start) =~= body);
    if over {
        None
    } else {
        Some(v)
    }
}

/// The two lower-case hexadecimal digits of a byte.
pub open spec fn hex_digit(d: nat) -> char {
    if d < 10 {
        (48 + d) as char
    } else {
        (87 + d) as char
    }
}

/// The lower-case hexadecimal notation of a run of bytes.
pub open spec fn hex(b: Seq<u8>) -> Seq<char>
    decreases b.len(),
{
    if b.len() == 0 {
        Seq::empty()
    } else {
        hex(b.drop_last()).push(hex_digit(b.last() as nat / 16)).push(
            hex_digit(b.last() as nat % 16),
        )
    }
}

fn hex_char(d: u8) -> (c: char)
    requires
        d < 16,
    ensures
        c == hex_digit(d as nat),
{
    if d < 10 {
        (48u8 + d) as char
    } else {
        (87u8 + d) as char
    }
}

/// The lower-case hexadecimal notation of a run of bytes.
pub fn hex_of(b: &[u8]) -> (r: String)
    ensures
        r@ == hex(b@),
{
    let mut r = String::new();
    let mut i: usize = 0;
    assert(hex(b@.take(0)) =~= r@);
    while i < b.len()
        invariant
            i <= b.len(),
            r@ == hex(b@.take(i as int)),
        decreases b.len() - i,
    {
        let x = b[i];
        r.push(hex_char(x / 16));
        r.push(hex_char(x % 16));
        i += 1;
        assert(b@.take(i as int).drop_last() =~= b@.take(i - 1));
    }
    assert(b@.take(i as int) =~= b@);
    r
}

/// Different bytes have different hexadecimal notations.
pub proof fn lemma_hex_injective(a: Seq<u8>, b: Seq<u8>)
    requires
        hex(a) == hex(b),
    ensures
        a == b,
    decreases a.len(),
{
    assert(a.len() > 0 <==> hex(a).len() > 0);
    assert(b.len() > 0 <==> hex(b).len() > 0);
    if a.len() > 0 {
        let ha = hex(a.drop_last());
        let hb = hex(b.drop_last());
        let n = hex(a).len();
        assert(hex(a)[n - 1] == hex_digit(a.last() as nat % 16));
        assert(hex(b)[n - 1] == hex_digit(b.last() as nat % 16));
        assert(hex(a)[n - 2] == hex_digit(a.last() as nat / 16));
        assert(hex(b)[n - 2] == hex_digit(b.last() as nat / 16));
        assert(hex(a).take(n - 2) =~= ha);
        assert(hex(b).take(n - 2) =~= hb);
        lemma_hex_injective(a.drop_last(), b.drop_last());
        assert(a =~= a.drop_last().push(a.last()));
        assert(b =~= b.drop_last().push(b.last()));
    }
}

/// The characters with the Unicode property White_Space.
pub open spec fn is_space(c: char) -> bool {
    let u = c as u32;
    ||| 0x9 <= u <= 0xd
    ||| u == 0x20
    ||| u == 0x85
    ||| u == 0xa0
    ||| u == 0x1680
    ||| 0x2000 <= u <= 0x200a
    ||| u == 0x2028
    ||| u == 0x2029
    ||| u == 0x202f
    ||| u == 0x205f
    ||| u == 0x3000
}

/// `s` without the white space at its two ends.
#[verifier::opaque]
pub open spec fn trim(s: Seq<char>) -> Seq<char>
    decreases s.len(),
{
    if s.len() == 0 {
        s
    } else if is_space(s[0]) {
        trim(s.drop_first())
    } else if is_space(s.last()) {
        trim(s.drop_last())
    } else {
        s
    }
}

proof fn lemma_trim(s: Seq<char>)
    ensures
        s.len() == 0 ==> trim(s) == s,
        s.len() > 0 && is_space(s[0]) ==> trim(s) == trim(s.drop_first()),
        s.len() > 0 && !is_space(s[0]) && is_space(s.last()) ==> trim(s) == trim(s.drop_last()),
        s.len() > 0 && !is_space(s[0]) && !is_space(s.last()) ==> trim(s) == s,
{
    reveal(trim);
}

fn space(c: char) -> (r: bool)
    ensures
        r == is_space(c),
{
    let u = c as u32;
    (0x9 <= u && u <= 0xd) || u == 0x20 || u == 0x85 || u == 0xa0 || u == 0x1680 || (0x2000 <= u
        && u <= 0x200a) || u == 0x2028 || u == 0x2029 || u == 0x202f || u == 0x205f || u == 0x3000
}

/// The characters without the white space at the two ends.
pub fn trim_chars(s: &[char]) -> (r: Vec<char>)
    ensures
        r@ == trim(s@),
{
    let mut lo: usize = 0;
    let mut hi: usize = s.len();
    assert(s@.subrange(0, hi as int) =~= s@);
    while lo < hi && space(s[lo])
        invariant
            lo <= hi <= s.len(),
            trim(s@) == trim(s@.subrange(lo as int, hi as int)),
        decreases hi - lo,
    {
        proof {
            lemma_trim(s@.subrange(lo as int, hi as int));
        }
        assert(s@.subrange(lo as int, hi as int).drop_first() =~= s@.subrange(lo + 1, hi as int));
        lo += 1;
    }
    while lo < hi && space(s[hi - 1])
        invariant
            lo <= hi <= s.len(),
            lo < hi ==> !is_space(s@[lo as int]),
            trim(s@) == trim(s@.subrange(lo as int, hi as int)),
        decreases hi - lo,
    {
        proof {
            lemma_trim(s@.subrange(lo as int, hi as int));
        }
        assert(s@.subrange(lo as int, hi as int).drop_last() =~= s@.subrange(lo as int, hi - 1));
        hi -= 1;
    }
    proof {
        lemma_trim(s@.subrange(lo as int, hi as int));
    }
    copy_range(s, lo, hi)
}

/// The characters from `lo` up to `hi`.
pub fn copy_range(s: &[char], lo: usize, hi: usize) -> (r: Vec<char>)
    requires
        lo <= hi <= s.len(),
    ensures
        r@ == s@.subrange(lo as int, hi as int),
{
    let mut r: Vec<char> = Vec::new();
    let mut i: usize = lo;
    while i < hi
        invariant
            lo <= i <= hi <= s.len(),
            r@ == s@.subrange(lo as int, i as int),
        decreases hi - i,
    {
        r.push(s[i]);
        i += 1;
        assert(s@.subrange(lo as int, i as int) =~= s@.subrange(lo as int, i - 1).push(s@[i - 1]));
    }
    r
}

/// Whether `s` begins with `p`.
pub open spec fn begins_with(s: Seq<char>, p: Seq<char>) -> bool {
    p.len() <= s.len() && s.take(p.len() as int) == p
}

/// Whether `s` ends with `p`.
pub open spec fn ends_with(s: Seq<char>, p: Seq<char>) -> bool {
    p.len() <= s.len() && s.skip(s.len() - p.len()) == p
}

/// What follows `prefix` in `s`, if `s` begins with it.
pub fn strip_prefix(s: &str, prefix: &str) -> (r: Option<String>)
    ensures
        match r {
            Some(rest) => begins_with(s@, prefix@) && rest@ == s@.skip(prefix@.len() as int),
            None => !begins_with(s@, prefix@),
        },
{
    let s = chars_of(s);
    let p = chars_of(prefix);
    if s.len() < p.len() {
        return None;
    }
    let head = copy_range(s.as_slice(), 0, p.len());
    assert(head@ =~= s@.take(p@.len() as int));
    if !chars_eq(head.as_slice(), p.as_slice()) {
        return None;
    }
    let rest = copy_range(s.as_slice(), p.len(), s.len());
    assert(rest@ =~= s@.skip(p@.len() as int));
    Some(string_of(rest.as_slice()))
}

/// Two texts, one behind the other.
pub fn concat(a: &str, b: &str) -> (r: String)
    ensures
        r@ == a@ + b@,
{
    a.to_owned().concat(b)
}

/// Whether `s` holds `p` somewhere.
pub open spec fn holds(s: Seq<char>, p: Seq<char>) -> bool {
    exists|i: int| 0 <= i <= s.len() && begins_with(#[trigger] s.skip(i), p)
}

/// `s` with `with` in place of each occurrence of `p`, from the left.
pub open spec fn replaced(s: Seq<char>, p: Seq<char>, with: Seq<char>) -> Seq<char>
    decreases s.len(),
{
    if s.len() == 0 || p.len() == 0 {
        s
    } else if begins_with(s, p) {
        with + replaced(s.skip(p.len() as int), p, with)
    } else {
        seq![s[0]] + replaced(s.drop_first(), p, with)
    }
}

/// A text without the first character of another does not hold the other.
pub proof fn lemma_holds_needs_first(s: Seq<char>, p: Seq<char>)
    requires
        p.len() > 0,
        !s.contains(p[0]),
    ensures
        !holds(s, p),
{
    assert forall|i: int| 0 <= i <= s.len() implies !begins_with(#[trigger] s.skip(i), p) by {
        if begins_with(s.skip(i), p) {
            assert(s.skip(i).take(p.len() as int)[0] == p[0]);
            assert(s[i] == p[0]);
        }
    }
}

/// What neither of two texts holds, both together do not hold either, if it
/// lacks the character on one side of the seam.
pub proof fn lemma_not_held_across(a: Seq<char>, b: Seq<char>, p: Seq<char>)
    requires
        (a.len() > 0 && !p.contains(a.last())) || (b.len() > 0 && !p.contains(b[0])),
        !holds(a, p),
        !holds(b, p),
    ensures
        !holds(a + b, p),
{
    let s = a + b;
    let n = p.len() as int;
    let m = a.len() as int;
    assert forall|i: int| 0 <= i <= s.len() implies !begins_with(#[trigger] s.skip(i), p) by {
        if begins_with(s.skip(i), p) {
            assert forall|k: int| 0 <= k < n implies s[i + k] == #[trigger] p[k] by {
                assert(s.skip(i).take(n)[k] == p[k]);
            }
            if i >= m {
                assert(b.skip(i - m) =~= s.skip(i));
            } else if i + n <= m {
                assert(a.skip(i).take(n) =~= p);
            } else {
                assert(p[m - i - 1] == a.last());
                assert(p[m - i] == b[0]);
            }
        }
    }
}

/// Whether one run of bytes comes no later than another in a dictionary.
pub open spec fn comes_by(a: Seq<u8>, b: Seq<u8>) -> bool
    decreases a.len(),
{
    a.len() == 0 || (b.len() > 0 && (a[0] < b[0] || (a[0] == b[0] && comes_by(
        a.drop_first(),
        b.drop_first(),
    ))))
}

/// Of two runs of bytes one comes no later than the other, and if both do they
/// are equal.
pub proof fn lemma_comes_by_total(a: Seq<u8>, b: Seq<u8>)
    ensures
        comes_by(a, b) || comes_by(b, a),
        comes_by(a, b) && comes_by(b, a) ==> a == b,
    decreases a.len(),
{
    if a.len() > 0 && b.len() > 0 {
        lemma_comes_by_total(a.drop_first(), b.drop_first());
        if a[0] == b[0] && a.drop_first() == b.drop_first() {
            assert(a =~= seq![a[0]] + a.drop_first());
            assert(b =~= seq![b[0]] + b.drop_first());
        }
    } else {
        assert(a.len() == 0 && b.len() == 0 ==> a =~= b);
    }
}

pub proof fn lemma_comes_by_transitive(a: Seq<u8>, b: Seq<u8>, c: Seq<u8>)
    requires
        comes_by(a, b),
        comes_by(b, c),
    ensures
        comes_by(a, c),
    decreases a.len(),
{
    if a.len() > 0 && a[0] == b[0] && b[0] == c[0] {
        lemma_comes_by_transitive(a.drop_first(), b.drop_first(), c.drop_first());
    }
}

/// Whether a text comes no later than another in the order of their bytes.
pub fn in_order(a: &str, b: &str) -> (r: bool)
    ensures
        r == comes_by(encode_utf8(a@), encode_utf8(b@)),
{
    let x = a.as_bytes();
    let y = b.as_bytes();
    let mut i: usize = 0;
    proof {
        assert(x@.skip(0) =~= x@);
        assert(y@.skip(0) =~= y@);
    }
    while i < x.len()
        invariant
            i <= x.len(),
            i <= y.len(),
            x@ == encode_utf8(a@),
            y@ == encode_utf8(b@),
            comes_by(x@, y@) == comes_by(x@.skip(i as int), y@.skip(i as int)),
        decreases x.len() - i,
    {
        if i >= y.len() {
            return false;
        }
        if x[i] != y[i] {
            return x[i] < y[i];
        }
        proof {
            assert(x@.skip(i as int).drop_first() =~= x@.skip(i + 1));
            assert(y@.skip(i as int).drop_first() =~= y@.skip(i + 1));
        }
        i += 1;
    }
    true
}

/// `std::str::from_utf8`, with the text copied: the text that bytes encode, if
/// they are valid UTF-8.
#[verifier::external_body]
pub(crate) fn from_utf8(bytes: &[u8]) -> (r: Option<String>)
    ensures
        match r {
            Some(s) => valid_utf8(bytes@) && s@ == decode_utf8(bytes@),
            None => !valid_utf8(bytes@),
        },
{
    match std::str::from_utf8(bytes) {
        Ok(s) => Some(s.to_owned()),
        Err(_) => None,
    }
}

/// A copy of a list of strings.
pub fn copy_strings(v: &Vec<String>) -> (r: Vec<String>)
    ensures
        texts(r@) == texts(v@),
{
    let mut r: Vec<String> = Vec::new();
    let mut i: usize = 0;
    while i < v.len()
        invariant
            i <= v.len(),
            r.len() == i,
            forall|j: int| 0 <= j < i ==> r@[j]@ == v@[j]@,
        decreases v.len() - i,
    {
        r.push(v[i].clone());
        i += 1;
    }
    assert(texts(r@) =~= texts(v@));
    r
}

/// A text with another in place of each occurrence of a pattern, from the left.
pub fn replace(s: &str, pattern: &str, with: &str) -> (r: String)
    requires
        pattern@.len() > 0,
    ensures
        r@ == replaced(s@, pattern@, with@),
{
    let c = chars_of(s);
    let p = chars_of(pattern);
    let mut r = String::new();
    let mut i: usize = 0;
    proof {
        assert(c@.skip(0) =~= s@);
        assert(r@ + replaced(s@, pattern@, with@) =~= replaced(s@, pattern@, with@));
    }
    while i < c.len()
        invariant
            i <= c.len(),
            c@ == s@,
            p@ == pattern@,
            p@.len() > 0,
            replaced(s@, pattern@, with@) == r@ + replaced(s@.skip(i as int), pattern@, with@),
        decreases c.len() - i,
    {
        let ghost rest = s@.skip(i as int);
        let ghost before = r@;
        let found = p.len() <= c.len() - i && chars_eq(
            copy_range(c.as_slice(), i, i + p.len()).as_slice(),
            p.as_slice(),
        );
        proof {
            if p@.len() <= c@.len() - i {
                assert(rest.take(p@.len() as int) =~= c@.subrange(i as int, i + p@.len()));
            }
            assert(found == begins_with(rest, pattern@));
        }
        if found {
            r = concat(r.as_str(), with);
            i += p.len();
            proof {
                assert(rest.skip(p@.len() as int) =~= s@.skip(i as int));
                assert(before + (with@ + replaced(s@.skip(i as int), pattern@, with@)) =~= r@
                    + replaced(s@.skip(i as int), pattern@, with@));
            }
        } else {
            r.push(c[i]);
            i += 1;
            proof {
                assert(rest.drop_first() =~= s@.skip(i as int));
                assert(before + (seq![rest[0]] + replaced(s@.skip(i as int), pattern@, with@))
                    =~= r@ + replaced(s@.skip(i as int), pattern@, with@));
            }
        }
    }
    proof {
        assert(s@.skip(i as int) =~= Seq::empty());
        assert(r@ + replaced(s@.skip(i as int), pattern@, with@) =~= r@);
    }
    r
}

/// The hexadecimal notation of `n`, without leading zeros.
pub open spec fn hexadecimal(n: nat) -> Seq<char>
    decreases n,
{
    if n < 16 {
        seq![hex_digit(n)]
    } else {
        hexadecimal(n / 16).push(hex_digit(n % 16))
    }
}

/// The hexadecimal notation of `n`, without leading zeros.
pub fn hexadecimal_of(n: u64) -> (r: String)
    ensures
        r@ == hexadecimal(n as nat),
    decreases n,
{
    if n < 16 {
        let mut r = String::new();
        r.push(hex_char(n as u8));
        assert(r@ =~= seq![hex_digit(n as nat)]);
        r
    } else {
        let mut r = hexadecimal_of(n / 16);
        r.push(hex_char((n % 16) as u8));
        r
    }
}

/// The index of the last `c` in `s`, if there is one.
pub open spec fn find_last(s: Seq<char>, c: char) -> Option<int>
    decreases s.len(),
{
    if s.len() == 0 {
        None
    } else if s.last() == c {
        Some(s.len() - 1)
    } else {
        find_last(s.drop_last(), c)
    }
}

/// The index of the last `c` among characters, if there is one.
pub fn position_last(s: &[char], c: char) -> (r: Option<usize>)
    ensures
        match r {
            Some(i) => i < s@.len() && find_last(s@, c) == Some(i as int),
            None => find_last(s@, c) is None,
        },
{
    let mut i: usize = s.len();
    assert(s@.take(i as int) =~= s@);
    while i > 0
        invariant
            i <= s@.len(),
            find_last(s@, c) == find_last(s@.take(i as int), c),
        decreases i,
    {
        if s[i - 1] == c {
            return Some(i - 1);
        }
        assert(s@.take(i as int).drop_last() =~= s@.take(i - 1));
        i -= 1;
    }
    None
}

/// A decimal notation is made of digits and reads as the number.
pub proof fn lemma_decimal(n: nat)
    ensures
        decimal(n).len() > 0,
        all_digits(decimal(n)),
        digits_value(decimal(n)) == n,
        parse_decimal(decimal(n)) == Some(n),
    decreases n,
{
    let s = decimal(n);
    if n >= 10 {
        lemma_decimal(n / 10);
        let t = decimal(n / 10);
        assert(s.drop_last() =~= t);
        assert forall|i: int| 0 <= i < s.len() implies is_digit(#[trigger] s[i]) by {
            if i < t.len() {
                assert(s[i] == t[i]);
            }
        }
    } else {
        assert(s.drop_last() =~= Seq::empty());
        assert(digits_value(s.drop_last()) == 0);
    }
    assert(is_digit(s[0]));
    assert(unsigned_part(s) == s);
}

/// The texts of strings are the strings' own, one for one.
pub proof fn law_texts(v: Seq<String>, i: int)
    requires
        0 <= i < v.len(),
    ensures
        texts(v).len() == v.len(),
        texts(v)[i] == v[i]@,
{
}

/// An optional text is the text where there is one.
pub proof fn law_given(s: Option<&str>)
    ensures
        given(s) is Some <==> s is Some,
        s matches Some(t) ==> given(s) == Some(t@),
{
}

/// Text without the separator is one piece, and two texts with the separator
/// between them are the pieces of the one and then those of the other.
pub proof fn law_split(a: Seq<char>, b: Seq<char>, sep: char)
    ensures
        !a.contains(sep) ==> split(a, sep) == seq![a],
        split(a + seq![sep] + b, sep) == split(a, sep) + split(b, sep),
    decreases a.len(),
{
    lemma_find(a, sep);
    let i = find(a, sep) as int;
    if i < a.len() {
        let head = a.take(i);
        let tail = a.skip(i + 1);
        assert(a =~= head + seq![sep] + tail);
        assert(a + seq![sep] + b =~= head + seq![sep] + (tail + seq![sep] + b));
        assert(!head.contains(sep));
        lemma_split_first(head, sep, tail + seq![sep] + b);
        law_split(tail, b, sep);
        assert(split(a + seq![sep] + b, sep) =~= split(a, sep) + split(b, sep));
    } else {
        lemma_split_first(a, sep, b);
        lemma_split_single(a, sep);
    }
}

/// The decimal notation of a digit is the digit, and that of ten times a number
/// and a digit is the notation of the number with the digit behind it.
pub proof fn law_decimal(n: nat, d: nat)
    requires
        d < 10,
    ensures
        decimal(d) == seq![(48 + d) as char],
        n > 0 ==> decimal(10 * n + d) == decimal(n).push((48 + d) as char),
{
    if n > 0 {
        assert((10 * n + d) / 10 == n && (10 * n + d) % 10 == d);
    }
}

/// A digit reads as its value, and a digit behind a run of digits as ten times
/// what the run stands for, and the digit; a plus sign in front changes nothing.
pub proof fn law_digits_are_read(s: Seq<char>, c: char)
    requires
        forall|i: int| 0 <= i < s.len() ==> '0' <= #[trigger] s[i] <= '9',
        '0' <= c <= '9',
    ensures
        parse_decimal(seq![c]) == Some((c as nat - 48) as nat),
        s.len() > 0 ==> parse_decimal(s) is Some,
        s.len() > 0 ==> parse_decimal(s.push(c)) == Some(
            (10 * parse_decimal(s)->0 + (c as nat - 48)) as nat,
        ),
        s.len() > 0 ==> parse_decimal(seq!['+'] + s) == parse_decimal(s),
{
    let one = seq![c];
    assert(one.drop_last() =~= Seq::empty());
    assert(digits_value(one.drop_last()) == 0);
    if s.len() > 0 {
        assert(s.push(c).drop_last() =~= s);
        assert(s[0] != '+');
        assert(s.push(c)[0] == s[0]);
        assert((seq!['+'] + s).drop_first() =~= s);
    }
}

/// What holds anything but digits, other than a plus sign in front, is no number,
/// nor is what holds no digit.
pub proof fn law_other_text_is_no_number(s: Seq<char>, i: int)
    ensures
        s.len() == 0 ==> parse_decimal(s) is None,
        s == seq!['+'] ==> parse_decimal(s) is None,
        0 <= i < s.len() && !('0' <= s[i] <= '9') && (i > 0 || s[i] != '+')
            ==> parse_decimal(s) is None,
{
    if s == seq!['+'] {
        assert(s[0] == '+');
        assert(s.drop_first().len() == 0);
    }
    if 0 <= i < s.len() && !('0' <= s[i] <= '9') {
        if s[0] == '+' {
            if i > 0 {
                assert(s.drop_first()[i - 1] == s[i]);
                assert(!is_digit(unsigned_part(s)[i - 1]));
            }
        } else {
            assert(!is_digit(unsigned_part(s)[i]));
        }
    }
}

/// A number is read if and only if it does not exceed the largest.
pub proof fn law_numbers_are_bounded(s: Seq<char>, max: nat, n: nat)
    ensures
        parse_bounded(s, max) == Some(n) <==> parse_decimal(s) == Some(n) && n <= max,
        parse_bounded(decimal(n), max) == (if n <= max {
            Some(n)
        } else {
            None
        }),
{
    lemma_decimal(n);
}

/// Each byte stands as two hexadecimal digits, in order.
pub proof fn law_hex(b: Seq<u8>, i: int)
    requires
        0 <= i < b.len(),
    ensures
        hex(b).len() == 2 * b.len(),
        hex(b)[2 * i] as int == (if b[i] / 16 < 10 {
            48 + b[i] / 16
        } else {
            87 + b[i] / 16
        }),
        hex(b)[2 * i + 1] as int == (if b[i] % 16 < 10 {
            48 + b[i] % 16
        } else {
            87 + b[i] % 16
        }),
    decreases b.len(),
{
    let rest = b.drop_last();
    if rest.len() > 0 {
        law_hex(rest, if i < rest.len() {
            i
        } else {
            0
        });
    } else {
        assert(hex(rest).len() == 0);
    }
    if i < rest.len() {
        assert(hex(b)[2 * i] == hex(rest)[2 * i]);
        assert(hex(b)[2 * i + 1] == hex(rest)[2 * i + 1]);
        assert(rest[i] == b[i]);
    }
}

/// The hexadecimal notation of a digit is the digit, and that of sixteen times a
/// number and a digit is the notation of the number with the digit behind it.
pub proof fn law_hexadecimal(n: nat, d: nat)
    requires
        d < 16,
    ensures
        hexadecimal(d).len() == 1,
        hexadecimal(d)[0] as int == (if d < 10 {
            48 + d
        } else {
            87 + d
        }),
        n > 0 ==> hexadecimal(16 * n + d) == hexadecimal(n) + hexadecimal(d),
{
    if n > 0 {
        assert((16 * n + d) / 16 == n && (16 * n + d) % 16 == d);
        assert(hexadecimal(16 * n + d) =~= hexadecimal(n) + hexadecimal(d));
    }
}

/// White space is what Unicode says it is: in ASCII the space and the five
/// control characters from the tabulator to the carriage return.
pub proof fn law_white_space(c: char)
    ensures
        (c as u32) < 128 ==> (is_space(c) <==> c as u32 == 32 || 9 <= c as u32 <= 13),
        (c as u32) >= 128 ==> (is_space(c) <==> {
            ||| c as u32 == 0x85
            ||| c as u32 == 0xa0
            ||| c as u32 == 0x1680
            ||| 0x2000 <= c as u32 <= 0x200a
            ||| c as u32 == 0x2028
            ||| c as u32 == 0x2029
            ||| c as u32 == 0x202f
            ||| c as u32 == 0x205f
            ||| c as u32 == 0x3000
        }),
{
}

/// Trimming takes away the white space in front and behind and nothing else.
pub proof fn law_trim(front: Seq<char>, kept: Seq<char>, back: Seq<char>)
    requires
        forall|i: int| 0 <= i < front.len() ==> is_space(#[trigger] front[i]),
        forall|i: int| 0 <= i < back.len() ==> is_space(#[trigger] back[i]),
        kept.len() > 0 ==> !is_space(kept[0]) && !is_space(kept.last()),
    ensures
        trim(front + kept + back) == kept,
    decreases front.len() + back.len(),
{
    let s = front + kept + back;
    lemma_trim(s);
    if front.len() > 0 {
        assert(s[0] == front[0]);
        assert(s.drop_first() =~= front.drop_first() + kept + back);
        assert forall|i: int| 0 <= i < front.drop_first().len() implies is_space(
            #[trigger] front.drop_first()[i],
        ) by {
            assert(front.drop_first()[i] == front[i + 1]);
        }
        law_trim(front.drop_first(), kept, back);
    } else if back.len() > 0 {
        if kept.len() > 0 {
            assert(s[0] == kept[0]);
            assert(s.last() == back.last());
            assert(is_space(back[back.len() - 1]));
            assert(s.drop_last() =~= front + kept + back.drop_last());
            assert forall|i: int| 0 <= i < back.drop_last().len() implies is_space(
                #[trigger] back.drop_last()[i],
            ) by {
                assert(back.drop_last()[i] == back[i]);
            }
            law_trim(front, kept, back.drop_last());
        } else {
            assert(s[0] == back[0]);
            assert(s.drop_first() =~= front + kept + back.drop_first());
            assert forall|i: int| 0 <= i < back.drop_first().len() implies is_space(
                #[trigger] back.drop_first()[i],
            ) by {
                assert(back.drop_first()[i] == back[i + 1]);
            }
            law_trim(front, kept, back.drop_first());
        }
    } else {
        assert(s =~= kept);
    }
}

/// A text begins, and ends, with another if its characters there are the other's.
pub proof fn law_begins_and_ends(s: Seq<char>, p: Seq<char>)
    ensures
        begins_with(s, p) <==> p.len() <= s.len() && forall|i: int|
            0 <= i < p.len() ==> s[i] == #[trigger] p[i],
        ends_with(s, p) <==> p.len() <= s.len() && forall|i: int|
            0 <= i < p.len() ==> s[s.len() - p.len() + i] == #[trigger] p[i],
        begins_with(p + s, p),
        ends_with(s + p, p),
{
    let n = p.len() as int;
    assert((p + s).take(n) =~= p);
    assert((s + p).skip(s.len() as int) =~= p);
    if n <= s.len() {
        assert forall|i: int| 0 <= i < n implies s.take(n)[i] == s[i] && #[trigger] s.skip(
            s.len() - n,
        )[i] == s[s.len() - n + i] by {}
        if forall|i: int| 0 <= i < n ==> s[i] == #[trigger] p[i] {
            assert(s.take(n) =~= p);
        }
        if forall|i: int| 0 <= i < n ==> s[s.len() - n + i] == #[trigger] p[i] {
            assert(s.skip(s.len() - n) =~= p);
        }
    }
}

/// A text holds another if it is the other with something in front and behind.
pub proof fn law_holds(a: Seq<char>, p: Seq<char>, b: Seq<char>, s: Seq<char>)
    ensures
        holds(a + p + b, p),
        holds(s, p) ==> exists|i: int|
            0 <= i <= s.len() - p.len() && s == #[trigger] s.take(i) + p + s.skip(i + p.len()),
{
    let t = a + p + b;
    assert(t.skip(a.len() as int).take(p.len() as int) =~= p);
    assert(begins_with(t.skip(a.len() as int), p));
    if holds(s, p) {
        let i = choose|i: int| 0 <= i <= s.len() && begins_with(#[trigger] s.skip(i), p);
        assert(s.skip(i).take(p.len() as int) =~= p);
        assert(s =~= s.take(i) + p + s.skip(i + p.len()));
    }
}

/// Replacing changes nothing where the pattern is not held; else the first
/// occurrence is replaced, and then what is behind it is gone through.
pub proof fn law_replaced(a: Seq<char>, p: Seq<char>, b: Seq<char>, with: Seq<char>)
    requires
        p.len() > 0,
        forall|i: int| 0 <= i < a.len() ==> !begins_with(#[trigger] (a + p + b).skip(i), p),
    ensures
        replaced(a + p + b, p, with) == a + with + replaced(b, p, with),
        !holds(b, p) ==> replaced(b, p, with) == b,
    decreases a.len(),
{
    let s = a + p + b;
    if !holds(b, p) {
        lemma_replaced_not(b, p, with);
    }
    if a.len() == 0 {
        assert(s.take(p.len() as int) =~= p);
        assert(s.skip(p.len() as int) =~= b);
        assert(replaced(s, p, with) =~= a + with + replaced(b, p, with));
    } else {
        let c = a.drop_first();
        assert(s.skip(0) =~= s);
        assert(!begins_with(s.skip(0), p));
        assert(s.drop_first() =~= c + p + b);
        assert forall|i: int| 0 <= i < c.len() implies !begins_with(
            #[trigger] (c + p + b).skip(i),
            p,
        ) by {
            assert((c + p + b).skip(i) =~= s.skip(i + 1));
        }
        law_replaced(c, p, b, with);
        assert(replaced(s, p, with) =~= a + with + replaced(b, p, with));
    }
}

proof fn lemma_replaced_not(s: Seq<char>, p: Seq<char>, with: Seq<char>)
    requires
        !holds(s, p),
    ensures
        replaced(s, p, with) == s,
    decreases s.len(),
{
    if s.len() > 0 && p.len() > 0 {
        assert(s.skip(0) =~= s);
        let t = s.drop_first();
        assert forall|i: int| 0 <= i <= t.len() implies !begins_with(#[trigger] t.skip(i), p) by {
            assert(t.skip(i) =~= s.skip(i + 1));
        }
        lemma_replaced_not(t, p, with);
        assert(seq![s[0]] + t =~= s);
    }
}

/// Of two runs of bytes the one that ends where they part comes first, or else
/// the one with the smaller byte there.
pub proof fn law_dictionary_order(common: Seq<u8>, a: Seq<u8>, b: Seq<u8>)
    requires
        a.len() > 0 && b.len() > 0 ==> a[0] != b[0],
    ensures
        comes_by(common + a, common + b) <==> a.len() == 0 || (b.len() > 0 && a[0] < b[0]),
    decreases common.len(),
{
    if common.len() == 0 {
        assert(common + a =~= a);
        assert(common + b =~= b);
    } else {
        let c = common.drop_first();
        assert((common + a).drop_first() =~= c + a);
        assert((common + b).drop_first() =~= c + b);
        law_dictionary_order(c, a, b);
    }
}

/// The first and the last occurrence of a character are where it stands with none
/// before it, or none behind it.
pub proof fn law_occurrences(s: Seq<char>, c: char, i: int)
    requires
        0 <= i < s.len(),
        s[i] == c,
    ensures
        (forall|j: int| 0 <= j < i ==> s[j] != c) ==> find(s, c) == i,
        (forall|j: int| i < j < s.len() ==> s[j] != c) ==> find_last(s, c) == Some(i),
        find(s, c) < s.len() && find_last(s, c) is Some,
    decreases s.len(),
{
    lemma_find(s, c);
    assert(s.contains(s[i]));
    if forall|j: int| 0 <= j < i ==> s[j] != c {
        lemma_find_is(s, c, i);
    }
    if i < s.len() - 1 && s.last() != c {
        let t = s.drop_last();
        assert(t[i] == s[i]);
        law_occurrences(t, c, i);
        if forall|j: int| i < j < s.len() ==> s[j] != c {
            assert forall|j: int| i < j < t.len() implies t[j] != c by {
                assert(t[j] == s[j]);
            }
        }
    }
}

/// What does not occur is not found.
pub proof fn law_no_occurrence(s: Seq<char>, c: char)
    requires
        !s.contains(c),
    ensures
        find(s, c) == s.len(),
        find_last(s, c) is None,
    decreases s.len(),
{
    lemma_find(s, c);
    if s.len() > 0 {
        assert(s.contains(s.last()));
        assert forall|k: int| 0 <= k < s.drop_last().len() implies s.drop_last()[k] != c by {
            assert(s.contains(s[k]));
        }
        law_no_occurrence(s.drop_last(), c);
    }
}

/// The bytes of a text without zero characters hold no zero.
pub proof fn lemma_no_zero_byte(s: Seq<char>)
    requires
        !s.contains('\0'),
    ensures
        !encode_utf8(s).contains(0u8),
    decreases s.len(),
{
    if s.len() > 0 {
        let c = s[0];
        let u = c as u32;
        let head = encode_scalar(u);
        let tail = s.drop_first();
        assert(s.contains(c));
        char_is_scalar(c);
        char_u32_cast(c, u);
        assert(c != '\0');
        assert(0u32 as char == '\0');
        assert(u != 0);
        assert forall|k: int| 0 <= k < tail.len() implies tail[k] != '\0' by {
            assert(s.contains(s[k + 1]));
        }
        lemma_no_zero_byte(tail);
        assert(0 < u <= 0x7F ==> (u & 0x7F) as u8 != 0u8) by (bit_vector);
        assert((0xC0u8 | ((u >> 6) & 0x1F) as u8) != 0u8 && (0xE0u8 | ((u >> 12) & 0x0F) as u8)
            != 0u8 && (0xF0u8 | ((u >> 18) & 0x7) as u8) != 0u8 && (0x80u8 | (u & 0x3F) as u8)
            != 0u8 && (0x80u8 | ((u >> 6) & 0x3F) as u8) != 0u8 && (0x80u8 | ((u >> 12)
            & 0x3F) as u8) != 0u8) by (bit_vector);
        assert(forall|k: int| 0 <= k < head.len() ==> head[k] != 0u8);
        let all = encode_utf8(s);
        assert(all == head + encode_utf8(tail));
        if all.contains(0u8) {
            let k = choose|k: int| 0 <= k < all.len() && all[k] == 0u8;
            if k >= head.len() {
                assert(encode_utf8(tail)[k - head.len()] == 0u8);
            }
        }
    }
}

/// The contents of vectors of characters are the vectors' own, one for one.
pub proof fn law_contents(v: Seq<Vec<char>>, i: int)
    ensures
        contents(v).len() == v.len(),
        0 <= i < v.len() ==> contents(v)[i] == v[i]@,
{
}

/// Pieces are joined with the separator between two of them.
pub proof fn law_join(piece: Seq<char>, pieces: Seq<Seq<char>>, sep: char)
    ensures
        join(Seq::empty(), sep) == Seq::<char>::empty(),
        join(seq![piece], sep) == piece,
        pieces.len() > 0 ==> join(seq![piece] + pieces, sep) == piece + seq![sep] + join(
            pieces,
            sep,
        ),
{
    assert((seq![piece] + pieces).drop_first() =~= pieces);
}

} // verus!
