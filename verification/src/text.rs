//! Character-level text handling shared by the league, team and player
//! file formats: whitespace trimming, line splitting, ASCII case folding,
//! decimal numbers and the small lexical helpers of the instruction syntax.
use vstd::prelude::*;
use vstd::multiset::Multiset;

verus! {

// ---------------------------------------------------------------------------
// Specifications
// ---------------------------------------------------------------------------

/// The Unicode `White_Space` property (the set that `char::is_whitespace` tests).
pub open spec fn is_ws(c: char) -> bool {
    let u = c as u32;
    ||| 0x09 <= u <= 0x0D
    ||| u == 0x20
    ||| u == 0x85
    ||| u == 0xA0
    ||| u == 0x1680
    ||| 0x2000 <= u <= 0x200A
    ||| u == 0x2028
    ||| u == 0x2029
    ||| u == 0x202F
    ||| u == 0x205F
    ||| u == 0x3000
}

/// `s` without its leading whitespace.
pub open spec fn trim_start(s: Seq<char>) -> Seq<char>
    decreases s.len(),
{
    if s.len() > 0 && is_ws(s[0]) {
        trim_start(s.drop_first())
    } else {
        s
    }
}

/// `s` without its trailing whitespace.
pub open spec fn trim_end(s: Seq<char>) -> Seq<char>
    decreases s.len(),
{
    if s.len() > 0 && is_ws(s.last()) {
        trim_end(s.drop_last())
    } else {
        s
    }
}

/// `s` without leading and trailing whitespace.
pub open spec fn trim(s: Seq<char>) -> Seq<char> {
    trim_end(trim_start(s))
}

/// The whitespace that `trim_start` removes.
pub open spec fn leading_ws(s: Seq<char>) -> Seq<char> {
    s.take(s.len() - trim_start(s).len())
}

/// The whitespace that `trim_end` removes.
pub open spec fn trailing_ws(s: Seq<char>) -> Seq<char> {
    s.skip(trim_end(s).len() as int)
}

/// Whether `s` is empty or made of whitespace only.
pub open spec fn is_blank(s: Seq<char>) -> bool {
    trim(s).len() == 0
}

/// Whether the first character of `s` is `c`.
pub open spec fn starts_with(s: Seq<char>, c: char) -> bool {
    s.len() > 0 && s[0] == c
}

/// Whether `s` starts with one of the characters of `set`.
pub open spec fn starts_with_any(s: Seq<char>, set: Seq<char>) -> bool {
    s.len() > 0 && set.contains(s[0])
}

/// Whether `s` holds the character `c`.
pub open spec fn holds(s: Seq<char>, c: char) -> bool {
    s.contains(c)
}

/// ASCII lower case of one character.
pub open spec fn ascii_lower(c: char) -> char {
    if 'A' <= c <= 'Z' {
        ((c as u32) + 32) as char
    } else {
        c
    }
}

/// ASCII upper case of one character.
pub open spec fn ascii_upper(c: char) -> char {
    if 'a' <= c <= 'z' {
        ((c as u32) - 32) as char
    } else {
        c
    }
}

/// ASCII lower case of a text (`str::to_ascii_lowercase`).
pub open spec fn lower(s: Seq<char>) -> Seq<char> {
    s.map_values(|c: char| ascii_lower(c))
}

/// ASCII upper case of a text (`str::to_ascii_uppercase`).
pub open spec fn upper(s: Seq<char>) -> Seq<char> {
    s.map_values(|c: char| ascii_upper(c))
}

/// Equality up to ASCII case (`str::eq_ignore_ascii_case`).
pub open spec fn eq_ignore_case(a: Seq<char>, b: Seq<char>) -> bool {
    lower(a) == lower(b)
}

/// Number of characters of the first piece of `s` that `split_inclusive('\n')`
/// yields: up to and including the first line feed, or all of `s`.
pub open spec fn piece_len(s: Seq<char>) -> nat
    decreases s.len(),
{
    if s.len() == 0 {
        0
    } else if s[0] == '\n' {
        1
    } else {
        1 + piece_len(s.drop_first())
    }
}

/// The pieces of `str::split_inclusive('\n')`: every piece but the last ends
/// with a line feed; the empty text has no piece.
pub open spec fn pieces(s: Seq<char>) -> Seq<Seq<char>>
    decreases s.len(),
{
    if s.len() == 0 {
        seq![]
    } else {
        let n = piece_len(s);
        if 0 < n <= s.len() {
            seq![s.take(n as int)] + pieces(s.skip(n as int))
        } else {
            seq![s]
        }
    }
}

/// A piece without its line ending (`\r\n` or `\n`), as `str::lines` yields it.
pub open spec fn line_body(piece: Seq<char>) -> Seq<char> {
    if piece.len() >= 2 && piece.last() == '\n' && piece[piece.len() - 2] == '\r' {
        piece.take(piece.len() - 2)
    } else if piece.len() >= 1 && piece.last() == '\n' {
        piece.take(piece.len() - 1)
    } else {
        piece
    }
}

/// The line ending of a piece: `\r\n`, `\n` or nothing.
pub open spec fn line_ending(piece: Seq<char>) -> Seq<char> {
    piece.skip(line_body(piece).len() as int)
}

/// The bodies of a sequence of pieces.
pub open spec fn bodies(ps: Seq<Seq<char>>) -> Seq<Seq<char>> {
    ps.map_values(|p: Seq<char>| line_body(p))
}

/// The lines of `str::lines`.
pub open spec fn lines(s: Seq<char>) -> Seq<Seq<char>> {
    bodies(pieces(s))
}

/// Index of the first occurrence of `c` in `s`.
pub open spec fn find_char(s: Seq<char>, c: char) -> Option<nat>
    decreases s.len(),
{
    if s.len() == 0 {
        None
    } else if s[0] == c {
        Some(0)
    } else {
        match find_char(s.drop_first(), c) {
            Some(i) => Some(i + 1),
            None => None,
        }
    }
}

/// Index of the first whitespace character of `s`.
pub open spec fn find_ws(s: Seq<char>) -> Option<nat>
    decreases s.len(),
{
    if s.len() == 0 {
        None
    } else if is_ws(s[0]) {
        Some(0)
    } else {
        match find_ws(s.drop_first()) {
            Some(i) => Some(i + 1),
            None => None,
        }
    }
}

/// Where the first word of a text that starts with a word ends: at its
/// first whitespace, or at its end.
pub open spec fn word_end(t: Seq<char>) -> int {
    match find_ws(t) {
        Some(i) => i as int,
        None => t.len() as int,
    }
}

/// The words of `str::split_whitespace`: the runs of non-whitespace
/// characters, in order.
pub open spec fn words(s: Seq<char>) -> Seq<Seq<char>>
    decreases s.len(),
{
    let t = trim_start(s);
    if t.len() == 0 {
        seq![]
    } else {
        proof {
            lemma_trim_start_suffix(s);
            lemma_word_end(t);
        }
        seq![t.take(word_end(t))] + words(t.skip(word_end(t)))
    }
}

/// The parts of `str::split(c)`: there is always at least one part.
pub open spec fn split_on(s: Seq<char>, c: char) -> Seq<Seq<char>>
    decreases s.len(),
{
    match find_char(s, c) {
        Some(i) => if i < s.len() {
            seq![s.take(i as int)] + split_on(s.skip(i as int + 1), c)
        } else {
            seq![s]
        },
        None => seq![s],
    }
}

/// Key and value of an instruction: the trimmed text up to its first
/// whitespace, and the trimmed rest (empty when there is no whitespace).
pub open spec fn split_instruction(s: Seq<char>) -> (Seq<char>, Seq<char>) {
    let t = trim(s);
    match find_ws(t) {
        Some(i) => (t.take(i as int), trim(t.skip(i as int + 1))),
        None => (t, seq![]),
    }
}

/// `s` without the character `c` at both ends (`strip_prefix(c)` then
/// `strip_suffix(c)`), when both are there.
pub open spec fn unquote(s: Seq<char>) -> Option<Seq<char>> {
    if s.len() >= 2 && s[0] == '"' && s.last() == '"' {
        Some(s.subrange(1, s.len() - 1))
    } else {
        None
    }
}

/// Whether every character of `s` is an ASCII digit.
pub open spec fn all_digits(s: Seq<char>) -> bool {
    forall|i: int| 0 <= i < s.len() ==> '0' <= #[trigger] s[i] <= '9'
}

/// The value of a string of ASCII digits.
pub open spec fn digits_value(s: Seq<char>) -> nat
    decreases s.len(),
{
    if s.len() == 0 {
        0
    } else {
        digits_value(s.drop_last()) * 10 + ((s.last() as u32) - ('0' as u32)) as nat
    }
}

/// What `str::parse::<u32>` accepts: an optional `+`, then at least one
/// ASCII digit, for a value that fits in `u32`.
pub open spec fn parse_u32(s: Seq<char>) -> Option<u32> {
    let d = if starts_with(s, '+') {
        s.drop_first()
    } else {
        s
    };
    if d.len() > 0 && all_digits(d) && digits_value(d) <= u32::MAX {
        Some(digits_value(d) as u32)
    } else {
        None
    }
}

/// The ASCII digit of a number below ten.
pub open spec fn digit_char(d: nat) -> char {
    ((d + ('0' as u32)) as u32) as char
}

/// The decimal notation of a number.
pub open spec fn decimal(n: nat) -> Seq<char>
    decreases n,
{
    if n < 10 {
        seq![digit_char(n)]
    } else {
        decimal(n / 10).push(digit_char(n % 10))
    }
}

/// The decimal notation of a number is made of digits and reads back as
/// the number.
pub proof fn lemma_decimal_reads_back(n: nat)
    ensures
        decimal(n).len() > 0,
        all_digits(decimal(n)),
        digits_value(decimal(n)) == n,
        forall|i: int| 0 <= i < decimal(n).len() ==> !is_ws(#[trigger] decimal(n)[i]),
    decreases n,
{
    let d = n % 10;
    assert(d < 10);
    assert((digit_char(d) as u32) == d + 48);
    if n >= 10 {
        lemma_decimal_reads_back(n / 10);
        let s = decimal(n);
        assert(s.drop_last() == decimal(n / 10));
        assert(s.last() == digit_char(d));
        assert forall|i: int| 0 <= i < s.len() implies '0' <= #[trigger] s[i] <= '9' by {
            if i < s.len() - 1 {
                assert(s[i] == decimal(n / 10)[i]);
            }
        }
        assert(digits_value(s) == digits_value(decimal(n / 10)) * 10 + d);
        assert forall|i: int| 0 <= i < s.len() implies !is_ws(#[trigger] s[i]) by {
            assert('0' <= s[i] <= '9');
        }
    } else {
        let s = decimal(n);
        assert(s.drop_last().len() == 0);
        assert(digits_value(s) == digits_value(s.drop_last()) * 10 + ((s.last() as u32) - ('0' as u32)) as nat);
    }
}

/// `str::parse::<u32>` reads the decimal notation of a `u32` back.
pub proof fn lemma_parse_decimal(n: u32)
    ensures
        parse_u32(decimal(n as nat)) == Some(n),
{
    lemma_decimal_reads_back(n as nat);
    assert('0' <= decimal(n as nat)[0] <= '9');
}

/// The words of ` a b`, for two words `a` and `b`, are `a` and `b`.
pub proof fn lemma_words_two(a: Seq<char>, b: Seq<char>)
    requires
        a.len() > 0,
        b.len() > 0,
        forall|i: int| 0 <= i < a.len() ==> !is_ws(#[trigger] a[i]),
        forall|i: int| 0 <= i < b.len() ==> !is_ws(#[trigger] b[i]),
    ensures
        words(seq![' '] + a + seq![' '] + b) == seq![a, b],
{
    let s = seq![' '] + a + seq![' '] + b;
    let t = a + seq![' '] + b;
    assert(s.drop_first() =~= t);
    assert(is_ws(' '));
    assert(t[0] == a[0]);
    assert(trim_start(t) == t);
    assert(trim_start(s) == t);
    assert forall|j: int| 0 <= j < a.len() implies !is_ws(#[trigger] t[j]) by {
        assert(t[j] == a[j]);
    }
    assert(t[a.len() as int] == ' ');
    lemma_find_ws_at(t, a.len() as int);
    assert(word_end(t) == a.len());
    assert(t.take(a.len() as int) =~= a);
    let u = t.skip(a.len() as int);
    assert(u =~= seq![' '] + b);
    assert(u.drop_first() =~= b);
    assert(trim_start(b) == b);
    assert(trim_start(u) == b);
    lemma_find_ws_at(b, b.len() as int);
    assert(word_end(b) == b.len());
    assert(b.take(b.len() as int) =~= b);
    let e = b.skip(b.len() as int);
    assert(e.len() == 0);
    assert(trim_start(e) == e);
    assert(words(e) == Seq::<Seq<char>>::empty());
    assert(words(u) =~= seq![b]);
    assert(words(s) =~= seq![a] + seq![b]);
}

/// The views of a sequence of character vectors.
pub open spec fn char_views(v: Seq<Vec<char>>) -> Seq<Seq<char>> {
    v.map_values(|x: Vec<char>| x@)
}

/// The views of a sequence of strings.
pub open spec fn string_views(v: Seq<String>) -> Seq<Seq<char>> {
    v.map_values(|x: String| x@)
}

// ---------------------------------------------------------------------------
// Lemmas
// ---------------------------------------------------------------------------

pub proof fn lemma_trim_start_suffix(s: Seq<char>)
    ensures
        trim_start(s).len() <= s.len(),
        trim_start(s) == s.skip(s.len() - trim_start(s).len()),
        trim_start(s).len() > 0 ==> !is_ws(trim_start(s)[0]),
    decreases s.len(),
{
    if s.len() > 0 && is_ws(s[0]) {
        lemma_trim_start_suffix(s.drop_first());
        assert(s.drop_first().skip(s.drop_first().len() - trim_start(s.drop_first()).len())
            =~= s.skip(s.len() - trim_start(s).len()));
    } else {
        assert(s.skip(0) =~= s);
    }
}

proof fn lemma_trim_end_prefix(s: Seq<char>)
    ensures
        trim_end(s).len() <= s.len(),
        trim_end(s) == s.take(trim_end(s).len() as int),
        trim_end(s).len() > 0 ==> !is_ws(trim_end(s).last()),
    decreases s.len(),
{
    if s.len() > 0 && is_ws(s.last()) {
        lemma_trim_end_prefix(s.drop_last());
        assert(s.drop_last().take(trim_end(s.drop_last()).len() as int)
            =~= s.take(trim_end(s).len() as int));
    } else {
        assert(s.take(s.len() as int) =~= s);
    }
}

pub proof fn lemma_find_ws_range(s: Seq<char>)
    ensures
        find_ws(s) matches Some(i) ==> i < s.len() && is_ws(s[i as int]) && forall|j: int|
            0 <= j < i ==> !is_ws(#[trigger] s[j]),
    decreases s.len(),
{
    if s.len() > 0 && !is_ws(s[0]) {
        lemma_find_ws_range(s.drop_first());
        if let Some(i) = find_ws(s.drop_first()) {
            assert forall|j: int| 0 <= j < i + 1 implies !is_ws(#[trigger] s[j]) by {
                if j > 0 {
                    assert(s[j] == s.drop_first()[j - 1]);
                }
            }
        }
    }
}

pub proof fn lemma_word_end(t: Seq<char>)
    requires
        t.len() > 0,
        !is_ws(t[0]),
    ensures
        1 <= word_end(t) <= t.len(),
{
    lemma_find_ws_range(t);
}

// ---------------------------------------------------------------------------
// Executable helpers
// ---------------------------------------------------------------------------

/// The characters of a string slice, in order.
pub fn to_chars(s: &str) -> (r: Vec<char>)
    ensures
        r@ == s@,
{
    let mut r: Vec<char> = Vec::new();
    for c in it: s.chars()
        invariant
            r@ == it.seq().take(it.index() as int),
    {
        r.push(c);
    }
    r
}

/// `String::push`: appends one character.
#[verifier::external_body]
fn push_char(s: &mut String, c: char)
    ensures
        final(s)@ == old(s)@.push(c),
{
    s.push(c);
}

/// A string made of the given characters.
pub fn from_chars(v: &[char]) -> (r: String)
    ensures
        r@ == v@,
{
    let mut r = String::new();
    let mut i: usize = 0;
    while i < v.len()
        invariant
            i <= v@.len(),
            r@ == v@.take(i as int),
        decreases v@.len() - i,
    {
        push_char(&mut r, v[i]);
        i += 1;
        assert(r@ =~= v@.take(i as int));
    }
    assert(v@.take(v@.len() as int) =~= v@);
    r
}

/// A copy of a character vector.
pub fn copy_chars(v: &[char]) -> (r: Vec<char>)
    ensures
        r@ == v@,
{
    let mut r: Vec<char> = Vec::new();
    let mut i: usize = 0;
    while i < v.len()
        invariant
            i <= v@.len(),
            r@ == v@.take(i as int),
        decreases v@.len() - i,
    {
        r.push(v[i]);
        i += 1;
        assert(r@ =~= v@.take(i as int));
    }
    assert(v@.take(v@.len() as int) =~= v@);
    r
}

/// The characters of `v` from `lo` up to `hi`.
pub fn sub_chars(v: &[char], lo: usize, hi: usize) -> (r: Vec<char>)
    requires
        lo <= hi <= v@.len(),
    ensures
        r@ == v@.subrange(lo as int, hi as int),
{
    let mut r: Vec<char> = Vec::new();
    let mut i: usize = lo;
    while i < hi
        invariant
            lo <= i <= hi <= v@.len(),
            r@ == v@.subrange(lo as int, i as int),
        decreases hi - i,
    {
        r.push(v[i]);
        i += 1;
        assert(r@ =~= v@.subrange(lo as int, i as int));
    }
    r
}

/// A copy of a string.
pub fn copy_string(s: &String) -> (r: String)
    ensures
        r@ == s@,
{
    s.clone()
}

/// The characters of a string, in order.
pub fn string_chars(s: &String) -> (r: Vec<char>)
    ensures
        r@ == s@,
{
    to_chars(s.as_str())
}

/// Appends the characters of `b` to `a`.
pub fn push_all(a: &mut Vec<char>, b: &[char])
    ensures
        final(a)@ == old(a)@ + b@,
{
    let mut i: usize = 0;
    while i < b.len()
        invariant
            i <= b@.len(),
            a@ == old(a)@ + b@.take(i as int),
        decreases b@.len() - i,
    {
        a.push(b[i]);
        i += 1;
        assert(a@ =~= old(a)@ + b@.take(i as int));
    }
    assert(b@.take(b@.len() as int) =~= b@);
}

/// Appends the characters of a string slice to `a`.
pub fn push_str(a: &mut Vec<char>, s: &str)
    ensures
        final(a)@ == old(a)@ + s@,
{
    let v = to_chars(s);
    push_all(a, v.as_slice());
}

/// Equality of two character sequences.
pub fn same_chars(a: &[char], b: &[char]) -> (r: bool)
    ensures
        r == (a@ == b@),
{
    if a.len() != b.len() {
        return false;
    }
    let mut i: usize = 0;
    while i < a.len()
        invariant
            a@.len() == b@.len(),
            i <= a@.len(),
            forall|j: int| 0 <= j < i ==> a@[j] == b@[j],
        decreases a@.len() - i,
    {
        if a[i] != b[i] {
            return false;
        }
        i += 1;
    }
    assert(a@ =~= b@);
    true
}

/// Equality of a character sequence and a string slice.
pub fn chars_are(a: &[char], s: &str) -> (r: bool)
    ensures
        r == (a@ == s@),
{
    let b = to_chars(s);
    same_chars(a, b.as_slice())
}

/// Equality of two strings.
pub fn same_string(a: &String, b: &String) -> (r: bool)
    ensures
        r == (a@ == b@),
{
    let x = string_chars(a);
    let y = string_chars(b);
    same_chars(x.as_slice(), y.as_slice())
}

/// Whether `c` is whitespace (`char::is_whitespace`).
pub fn char_is_ws(c: char) -> (r: bool)
    ensures
        r == is_ws(c),
{
    let u = c as u32;
    (0x09 <= u && u <= 0x0D) || u == 0x20 || u == 0x85 || u == 0xA0 || u == 0x1680 || (0x2000
        <= u && u <= 0x200A) || u == 0x2028 || u == 0x2029 || u == 0x202F || u == 0x205F || u
        == 0x3000
}

proof fn lemma_trim_start_skip(s: Seq<char>, i: int)
    requires
        0 <= i <= s.len(),
        forall|j: int| 0 <= j < i ==> is_ws(#[trigger] s[j]),
    ensures
        trim_start(s) == trim_start(s.skip(i)),
    decreases i,
{
    if i > 0 {
        assert(s.drop_first().skip(i - 1) =~= s.skip(i));
        lemma_trim_start_skip(s.drop_first(), i - 1);
    } else {
        assert(s.skip(0) =~= s);
    }
}

proof fn lemma_trim_end_take(s: Seq<char>, i: int)
    requires
        0 <= i <= s.len(),
        forall|j: int| i <= j < s.len() ==> is_ws(#[trigger] s[j]),
    ensures
        trim_end(s) == trim_end(s.take(i)),
    decreases s.len() - i,
{
    if i < s.len() {
        assert(s.drop_last().take(i) =~= s.take(i));
        lemma_trim_end_take(s.drop_last(), i);
    } else {
        assert(s.take(i) =~= s);
    }
}

/// Number of leading whitespace characters of `v`.
pub fn leading_ws_len(v: &[char]) -> (r: usize)
    ensures
        r <= v@.len(),
        trim_start(v@) == v@.skip(r as int),
{
    let mut i: usize = 0;
    while i < v.len() && char_is_ws(v[i])
        invariant
            i <= v@.len(),
            forall|j: int| 0 <= j < i ==> is_ws(#[trigger] v@[j]),
        decreases v@.len() - i,
    {
        i += 1;
    }
    proof {
        lemma_trim_start_skip(v@, i as int);
        let t = v@.skip(i as int);
        if t.len() > 0 {
            assert(t[0] == v@[i as int]);
        }
    }
    i
}

/// Length of `v` without its trailing whitespace.
pub fn trimmed_end_len(v: &[char]) -> (r: usize)
    ensures
        r <= v@.len(),
        trim_end(v@) == v@.take(r as int),
{
    let mut i: usize = v.len();
    while i > 0 && char_is_ws(v[i - 1])
        invariant
            i <= v@.len(),
            forall|j: int| i <= j < v@.len() ==> is_ws(#[trigger] v@[j]),
        decreases i,
    {
        i -= 1;
    }
    proof {
        lemma_trim_end_take(v@, i as int);
        let t = v@.take(i as int);
        if t.len() > 0 {
            assert(t.last() == v@[i - 1]);
        }
    }
    i
}

/// `v` without leading and trailing whitespace.
pub fn trimmed(v: &[char]) -> (r: Vec<char>)
    ensures
        r@ == trim(v@),
{
    let lo = leading_ws_len(v);
    let rest = sub_chars(v, lo, v.len());
    assert(rest@ == trim_start(v@));
    let hi = trimmed_end_len(rest.as_slice());
    sub_chars(rest.as_slice(), 0, hi)
}

/// Whether `v` is empty or whitespace only.
pub fn blank(v: &[char]) -> (r: bool)
    ensures
        r == is_blank(v@),
{
    let t = trimmed(v);
    t.len() == 0
}

/// Whether the first character of `v` is `c`.
pub fn first_is(v: &[char], c: char) -> (r: bool)
    ensures
        r == starts_with(v@, c),
{
    v.len() > 0 && v[0] == c
}

/// Whether the first character of `v` is one of `set`.
pub fn first_in(v: &[char], set: &[char]) -> (r: bool)
    ensures
        r == starts_with_any(v@, set@),
{
    if v.len() == 0 {
        return false;
    }
    contains_char(set, v[0])
}

/// Whether `v` holds `c`.
pub fn contains_char(v: &[char], c: char) -> (r: bool)
    ensures
        r == v@.contains(c),
{
    let mut i: usize = 0;
    while i < v.len()
        invariant
            i <= v@.len(),
            forall|j: int| 0 <= j < i ==> v@[j] != c,
        decreases v@.len() - i,
    {
        if v[i] == c {
            assert(v@[i as int] == c);
            return true;
        }
        i += 1;
    }
    false
}

/// ASCII lower case of one character.
pub fn char_lower(c: char) -> (r: char)
    ensures
        r == ascii_lower(c),
{
    if 'A' <= c && c <= 'Z' {
        let u = (c as u32) + 32;
        assert(0x61 <= u <= 0x7A);
        char_from_ascii(u)
    } else {
        c
    }
}

/// ASCII upper case of one character.
pub fn char_upper(c: char) -> (r: char)
    ensures
        r == ascii_upper(c),
{
    if 'a' <= c && c <= 'z' {
        let u = (c as u32) - 32;
        char_from_ascii(u)
    } else {
        c
    }
}

fn char_from_ascii(u: u32) -> (r: char)
    requires
        u < 128,
    ensures
        r == u as char,
{
    let b = u as u8;
    b as char
}

/// ASCII lower case of `v` (`to_ascii_lowercase`).
pub fn lowered(v: &[char]) -> (r: Vec<char>)
    ensures
        r@ == lower(v@),
{
    let mut r: Vec<char> = Vec::new();
    let mut i: usize = 0;
    while i < v.len()
        invariant
            i <= v@.len(),
            r@ == lower(v@.take(i as int)),
        decreases v@.len() - i,
    {
        r.push(char_lower(v[i]));
        i += 1;
        assert(r@ =~= lower(v@.take(i as int)));
    }
    assert(v@.take(v@.len() as int) =~= v@);
    r
}

/// ASCII upper case of `v` (`to_ascii_uppercase`).
pub fn uppered(v: &[char]) -> (r: Vec<char>)
    ensures
        r@ == upper(v@),
{
    let mut r: Vec<char> = Vec::new();
    let mut i: usize = 0;
    while i < v.len()
        invariant
            i <= v@.len(),
            r@ == upper(v@.take(i as int)),
        decreases v@.len() - i,
    {
        r.push(char_upper(v[i]));
        i += 1;
        assert(r@ =~= upper(v@.take(i as int)));
    }
    assert(v@.take(v@.len() as int) =~= v@);
    r
}

/// Equality up to ASCII case.
pub fn same_ignoring_case(a: &[char], b: &[char]) -> (r: bool)
    ensures
        r == eq_ignore_case(a@, b@),
{
    let x = lowered(a);
    let y = lowered(b);
    same_chars(x.as_slice(), y.as_slice())
}

/// Equality of two strings up to ASCII case.
pub fn strings_eq_ignore_case(a: &String, b: &String) -> (r: bool)
    ensures
        r == eq_ignore_case(a@, b@),
{
    let x = string_chars(a);
    let y = string_chars(b);
    same_ignoring_case(x.as_slice(), y.as_slice())
}


proof fn lemma_piece_len(s: Seq<char>)
    ensures
        piece_len(s) <= s.len(),
        s.len() > 0 ==> piece_len(s) > 0,
        forall|j: int| 0 <= j < piece_len(s) - 1 ==> #[trigger] s[j] != '\n',
        piece_len(s) > 0 && piece_len(s) < s.len() ==> s[piece_len(s) - 1] == '\n',
        piece_len(s) > 0 && s[piece_len(s) - 1] != '\n' ==> piece_len(s) == s.len(),
    decreases s.len(),
{
    if s.len() > 0 && s[0] != '\n' {
        lemma_piece_len(s.drop_first());
        assert forall|j: int| 0 <= j < piece_len(s) - 1 implies #[trigger] s[j] != '\n' by {
            if j > 0 {
                assert(s[j] == s.drop_first()[j - 1]);
            }
        }
    }
}

/// The end (exclusive) of the piece of `v` that starts at `start`.
fn piece_end(v: &[char], start: usize) -> (r: usize)
    requires
        start < v@.len(),
    ensures
        start < r <= v@.len(),
        r - start == piece_len(v@.skip(start as int)),
{
    let mut i: usize = start;
    while i < v.len() && v[i] != '\n'
        invariant
            start <= i <= v@.len(),
            forall|j: int| start <= j < i ==> #[trigger] v@[j] != '\n',
            piece_len(v@.skip(start as int)) == (i - start) + piece_len(v@.skip(i as int)),
        decreases v@.len() - i,
    {
        assert(v@.skip(i as int).drop_first() =~= v@.skip(i + 1));
        i += 1;
    }
    if i < v.len() {
        i + 1
    } else {
        i
    }
}

proof fn lemma_pieces_step(s: Seq<char>, start: int, end: int)
    requires
        0 <= start < end <= s.len(),
        end - start == piece_len(s.skip(start)),
    ensures
        pieces(s.skip(start)) == seq![s.subrange(start, end)] + pieces(s.skip(end)),
{
    let t = s.skip(start);
    lemma_piece_len(t);
    assert(t.take(end - start) =~= s.subrange(start, end));
    assert(t.skip(end - start) =~= s.skip(end));
}

/// The pieces of `str::split_inclusive('\n')`.
pub fn split_pieces(v: &[char]) -> (r: Vec<Vec<char>>)
    ensures
        char_views(r@) == pieces(v@),
{
    let mut r: Vec<Vec<char>> = Vec::new();
    let mut start: usize = 0;
    assert(v@.skip(0) =~= v@);
    while start < v.len()
        invariant
            start <= v@.len(),
            char_views(r@) + pieces(v@.skip(start as int)) == pieces(v@),
        decreases v@.len() - start,
    {
        let end = piece_end(v, start);
        proof {
            lemma_pieces_step(v@, start as int, end as int);
        }
        let piece = sub_chars(v, start, end);
        let ghost before = char_views(r@);
        r.push(piece);
        assert(char_views(r@) =~= before.push(piece@));
        assert(char_views(r@) + pieces(v@.skip(end as int)) =~= before + (seq![piece@] + pieces(v@.skip(end as int))));
        start = end;
    }
    assert(v@.skip(start as int).len() == 0);
    assert(char_views(r@) =~= pieces(v@));
    r
}

/// The length of a piece without its line ending.
pub fn body_len(p: &[char]) -> (r: usize)
    ensures
        r <= p@.len(),
        line_body(p@) == p@.take(r as int),
        line_ending(p@) == p@.skip(r as int),
{
    let n = p.len();
    if n >= 2 && p[n - 1] == '\n' && p[n - 2] == '\r' {
        n - 2
    } else if n >= 1 && p[n - 1] == '\n' {
        n - 1
    } else {
        assert(p@.take(n as int) =~= p@);
        n
    }
}

/// The lines of `str::lines`.
pub fn split_lines(v: &[char]) -> (r: Vec<Vec<char>>)
    ensures
        char_views(r@) == lines(v@),
{
    let ps = split_pieces(v);
    let mut r: Vec<Vec<char>> = Vec::new();
    let mut i: usize = 0;
    while i < ps.len()
        invariant
            i <= ps@.len(),
            char_views(ps@) == pieces(v@),
            char_views(r@) == bodies(pieces(v@).take(i as int)),
        decreases ps@.len() - i,
    {
        let n = body_len(ps[i].as_slice());
        let body = sub_chars(ps[i].as_slice(), 0, n);
        assert(ps@[i as int]@ == char_views(ps@)[i as int]);
        assert(body@ == line_body(pieces(v@)[i as int]));
        assert(pieces(v@).take(i + 1) =~= pieces(v@).take(i as int).push(pieces(v@)[i as int]));
        assert(bodies(pieces(v@).take(i + 1)) =~= bodies(pieces(v@).take(i as int)).push(body@));
        let ghost before = char_views(r@);
        r.push(body);
        assert(char_views(r@) =~= before.push(body@));
        i += 1;
    }
    assert(pieces(v@).take(i as int) =~= pieces(v@));
    r
}

proof fn lemma_find_char(s: Seq<char>, c: char)
    ensures
        find_char(s, c) matches Some(i) ==> i < s.len() && s[i as int] == c && forall|j: int|
            0 <= j < i ==> #[trigger] s[j] != c,
        find_char(s, c) is None ==> forall|j: int| 0 <= j < s.len() ==> #[trigger] s[j] != c,
    decreases s.len(),
{
    if s.len() > 0 && s[0] != c {
        let t = s.drop_first();
        lemma_find_char(t, c);
        match find_char(t, c) {
            Some(i) => {
                assert(s[i as int + 1] == t[i as int]);
                assert forall|j: int| 0 <= j < i + 1 implies #[trigger] s[j] != c by {
                    if j > 0 {
                        assert(s[j] == t[j - 1]);
                    }
                }
            },
            None => {
                assert forall|j: int| 0 <= j < s.len() implies #[trigger] s[j] != c by {
                    if j > 0 {
                        assert(s[j] == t[j - 1]);
                    }
                }
            },
        }
    }
}

proof fn lemma_find_char_at(s: Seq<char>, c: char, i: int)
    requires
        0 <= i <= s.len(),
        forall|j: int| 0 <= j < i ==> #[trigger] s[j] != c,
    ensures
        i < s.len() && s[i] == c ==> find_char(s, c) == Some(i as nat),
        i == s.len() ==> find_char(s, c) is None,
    decreases i,
{
    if i > 0 {
        lemma_find_char_at(s.drop_first(), c, i - 1);
    }
}

pub proof fn lemma_find_ws_at(s: Seq<char>, i: int)
    requires
        0 <= i <= s.len(),
        forall|j: int| 0 <= j < i ==> !is_ws(#[trigger] s[j]),
    ensures
        i < s.len() && is_ws(s[i]) ==> find_ws(s) == Some(i as nat),
        i == s.len() ==> find_ws(s) is None,
    decreases i,
{
    if i > 0 {
        lemma_find_ws_at(s.drop_first(), i - 1);
    }
}

/// Index of the first `c` in `v`, from `from` on.
fn find_from(v: &[char], from: usize, c: char) -> (r: Option<usize>)
    requires
        from <= v@.len(),
    ensures
        r == (match find_char(v@.skip(from as int), c) {
            Some(i) => Some((i + from) as usize),
            None => None::<usize>,
        }),
        r matches Some(i) ==> from <= i < v@.len(),
{
    let mut i: usize = from;
    while i < v.len()
        invariant
            from <= i <= v@.len(),
            forall|j: int| from <= j < i ==> #[trigger] v@[j] != c,
        decreases v@.len() - i,
    {
        if v[i] == c {
            proof {
                lemma_find_char_at(v@.skip(from as int), c, i - from);
            }
            return Some(i);
        }
        i += 1;
    }
    proof {
        lemma_find_char_at(v@.skip(from as int), c, i - from);
    }
    None
}

/// Index of the first `c` in `v` (see `find_char`).
pub fn find_first(v: &[char], c: char) -> (r: Option<usize>)
    ensures
        r matches Some(i) ==> find_char(v@, c) == Some(i as nat) && i < v@.len(),
        r is None ==> find_char(v@, c) is None,
{
    let mut i: usize = 0;
    while i < v.len()
        invariant
            i <= v@.len(),
            forall|j: int| 0 <= j < i ==> #[trigger] v@[j] != c,
        decreases v@.len() - i,
    {
        if v[i] == c {
            proof {
                lemma_find_char_at(v@, c, i as int);
            }
            return Some(i);
        }
        i += 1;
    }
    proof {
        lemma_find_char_at(v@, c, i as int);
    }
    None
}

/// The words of `str::split_whitespace`.
pub fn split_words(v: &[char]) -> (r: Vec<Vec<char>>)
    ensures
        char_views(r@) == words(v@),
{
    let mut r: Vec<Vec<char>> = Vec::new();
    let mut i: usize = 0;
    assert(v@.skip(0) =~= v@);
    assert(char_views(r@) + words(v@) =~= words(v@));
    while i < v.len()
        invariant
            i <= v@.len(),
            char_views(r@) + words(v@.skip(i as int)) == words(v@),
        decreases v@.len() - i,
    {
        let mut a: usize = i;
        while a < v.len() && char_is_ws(v[a])
            invariant
                i <= a <= v@.len(),
                forall|j: int| i <= j < a ==> is_ws(#[trigger] v@[j]),
            decreases v@.len() - a,
        {
            a += 1;
        }
        proof {
            let s = v@.skip(i as int);
            assert forall|j: int| 0 <= j < a - i implies is_ws(#[trigger] s[j]) by {
                assert(s[j] == v@[i + j]);
            }
            lemma_trim_start_skip(s, a - i);
            assert(s.skip(a - i) =~= v@.skip(a as int));
        }
        if a == v.len() {
            proof {
                assert(v@.skip(a as int).len() == 0);
                assert(trim_start(v@.skip(a as int)) =~= seq![]);
                assert(words(v@.skip(i as int)) =~= seq![]);
                assert(char_views(r@) + seq![] =~= char_views(r@));
            }
            i = a;
        } else {
            let mut b: usize = a;
            while b < v.len() && !char_is_ws(v[b])
                invariant
                    a <= b <= v@.len(),
                    forall|j: int| a <= j < b ==> !is_ws(#[trigger] v@[j]),
                decreases v@.len() - b,
            {
                b += 1;
            }
            let word = sub_chars(v, a, b);
            proof {
                let t = v@.skip(a as int);
                assert(t[0] == v@[a as int]);
                assert(!is_ws(t[0]));
                assert forall|j: int| 0 <= j < b - a implies !is_ws(#[trigger] t[j]) by {
                    assert(t[j] == v@[a + j]);
                }
                if b < v.len() {
                    assert(t[b - a] == v@[b as int]);
                }
                lemma_find_ws_at(t, b - a);
                assert(word_end(t) == b - a);
                assert(t.take(b - a) =~= word@);
                assert(t.skip(b - a) =~= v@.skip(b as int));
                assert(words(v@.skip(i as int)) == seq![word@] + words(v@.skip(b as int)));
            }
            let ghost before = char_views(r@);
            r.push(word);
            assert(char_views(r@) =~= before.push(word@));
            assert(char_views(r@) + words(v@.skip(b as int)) =~= before + (seq![word@] + words(v@.skip(b as int))));
            i = b;
        }
    }
    assert(v@.skip(i as int).len() == 0);
    assert(trim_start(v@.skip(i as int)) =~= seq![]);
    assert(char_views(r@) + seq![] =~= char_views(r@));
    r
}

/// The parts of `str::split(c)`.
pub fn split_char(v: &[char], c: char) -> (r: Vec<Vec<char>>)
    ensures
        char_views(r@) == split_on(v@, c),
        r@.len() >= 1,
{
    let mut r: Vec<Vec<char>> = Vec::new();
    let mut start: usize = 0;
    let n = v.len();
    assert(v@.skip(0) =~= v@);
    loop
        invariant
            n == v@.len(),
            start <= v@.len(),
            char_views(r@) + split_on(v@.skip(start as int), c) == split_on(v@, c),
        decreases v@.len() - start,
    {
        let ghost rest = v@.skip(start as int);
        let ghost before = char_views(r@);
        match find_from(v, start, c) {
            Some(i) => {
                assert(i < n);
                let part = sub_chars(v, start, i);
                proof {
                    lemma_find_char(rest, c);
                    let k = find_char(rest, c)->0;
                    assert(k + start == i);
                    assert(k < rest.len());
                    assert(rest.take(i - start) =~= part@);
                    assert(rest.skip(i - start + 1) =~= v@.skip(i + 1));
                    assert(split_on(rest, c) == seq![part@] + split_on(v@.skip(i + 1), c));
                }
                r.push(part);
                assert(char_views(r@) =~= before.push(part@));
                assert(char_views(r@) + split_on(v@.skip(i + 1), c) =~= before + split_on(rest, c));
                start = i + 1;
            },
            None => {
                let part = sub_chars(v, start, v.len());
                assert(part@ =~= rest);
                assert(split_on(rest, c) == seq![part@]);
                r.push(part);
                assert(char_views(r@) =~= before.push(part@));
                assert(char_views(r@) =~= split_on(v@, c));
                return r;
            },
        }
    }
}

/// Key and value of an instruction (see `split_instruction`).
pub fn instruction_parts(v: &[char]) -> (r: (Vec<char>, Vec<char>))
    ensures
        (r.0@, r.1@) == split_instruction(v@),
{
    let t = trimmed(v);
    let mut i: usize = 0;
    while i < t.len() && !char_is_ws(t[i])
        invariant
            i <= t@.len(),
            forall|j: int| 0 <= j < i ==> !is_ws(#[trigger] t@[j]),
        decreases t@.len() - i,
    {
        i += 1;
    }
    proof {
        lemma_find_ws_at(t@, i as int);
    }
    if i < t.len() {
        let key = sub_chars(t.as_slice(), 0, i);
        let rest = sub_chars(t.as_slice(), i + 1, t.len());
        let value = trimmed(rest.as_slice());
        assert(rest@ =~= t@.skip(i + 1));
        (key, value)
    } else {
        (t, Vec::new())
    }
}

/// `v` without a double quote at both ends, when both are there.
pub fn unquoted(v: &[char]) -> (r: Option<Vec<char>>)
    ensures
        r matches Some(x) ==> unquote(v@) == Some(x@),
        r is None ==> unquote(v@) is None,
{
    let n = v.len();
    if n >= 2 && v[0] == '"' && v[n - 1] == '"' {
        Some(sub_chars(v, 1, n - 1))
    } else {
        None
    }
}

proof fn lemma_digits_value_monotone(s: Seq<char>, i: int)
    requires
        0 <= i <= s.len(),
        all_digits(s),
    ensures
        digits_value(s.take(i)) <= digits_value(s),
    decreases s.len() - i,
{
    if i < s.len() {
        assert(s.drop_last().take(i) =~= s.take(i));
        assert(all_digits(s.drop_last()));
        lemma_digits_value_monotone(s.drop_last(), i);
        assert(s.take(s.len() as int) =~= s);
    } else {
        assert(s.take(i) =~= s);
    }
}

/// `str::parse::<u32>`.
pub fn parse_number(v: &[char]) -> (r: Option<u32>)
    ensures
        r == parse_u32(v@),
{
    let start: usize = if v.len() > 0 && v[0] == '+' {
        1
    } else {
        0
    };
    let ghost d = if starts_with(v@, '+') {
        v@.drop_first()
    } else {
        v@
    };
    assert(d =~= v@.skip(start as int));
    if start >= v.len() {
        return None;
    }
    let mut acc: u64 = 0;
    let mut i: usize = start;
    while i < v.len()
        invariant
            start <= i <= v@.len(),
            d == v@.skip(start as int),
            d == (if starts_with(v@, '+') { v@.drop_first() } else { v@ }),
            d.len() > 0,
            all_digits(d.take(i - start)),
            acc == digits_value(d.take(i - start)),
            acc <= u32::MAX,
        decreases v@.len() - i,
    {
        let c = v[i];
        if c < '0' || c > '9' {
            assert(d[i - start] == c);
            return None;
        }
        let digit = (c as u32 - '0' as u32) as u64;
        proof {
            let p = d.take(i - start + 1);
            assert(p.drop_last() =~= d.take(i - start));
            assert(p.last() == c);
            assert(all_digits(p));
        }
        if acc > (u32::MAX as u64 - digit) / 10 {
            proof {
                let p = d.take(i - start + 1);
                assert(p.drop_last() =~= d.take(i - start));
                assert(digits_value(p) == acc * 10 + digit);
                assert(acc * 10 + digit > u32::MAX) by (nonlinear_arith)
                    requires
                        acc > (u32::MAX as u64 - digit) / 10,
                        digit <= 9,
                ;
                if all_digits(d) {
                    lemma_digits_value_monotone(d, i - start + 1);
                }
            }
            return None;
        }
        assert(acc * 10 + digit <= u32::MAX) by (nonlinear_arith)
            requires
                acc <= (u32::MAX as u64 - digit) / 10,
                digit <= 9,
        ;
        acc = acc * 10 + digit;
        i += 1;
    }
    assert(d.take(i - start) =~= d);
    Some(acc as u32)
}

/// Appends the decimal notation of `n` to `out`.
pub fn push_decimal(out: &mut Vec<char>, n: u64)
    ensures
        final(out)@ == old(out)@ + decimal(n as nat),
    decreases n,
{
    if n >= 10 {
        push_decimal(out, n / 10);
    }
    let d = (n % 10) as u32;
    let c = char_from_ascii(d + 48);
    out.push(c);
    proof {
        assert(c == digit_char((n % 10) as nat));
        if n >= 10 {
            assert(out@ =~= old(out)@ + decimal(n as nat));
        } else {
            assert(out@ =~= old(out)@ + decimal(n as nat));
        }
    }
}


/// What `str::to_lowercase` gives for a text: its Unicode lower case.
pub uninterp spec fn unicode_lowercase(s: Seq<char>) -> Seq<char>;

/// `str::to_lowercase`: the Unicode lower case of `s`, named by
/// `unicode_lowercase`. As std documents, the lower case of ASCII text is
/// its ASCII lower case.
#[verifier::external_body]
pub(crate) fn to_unicode_lowercase(s: &str) -> (r: String)
    ensures
        r@ == unicode_lowercase(s@),
        vstd::utf8::is_ascii_chars(s@) ==> r@ == lower(s@),
{
    s.to_lowercase()
}

/// Whether `c` is a control character (general category Cc), as
/// `char::is_control` tests.
pub open spec fn is_control(c: char) -> bool {
    (c as u32) <= 0x1F || (0x7F <= (c as u32) && (c as u32) <= 0x9F)
}

/// `char::is_control`.
pub fn char_is_control(c: char) -> (r: bool)
    ensures
        r == is_control(c),
{
    let u = c as u32;
    u <= 0x1F || (0x7F <= u && u <= 0x9F)
}

/// What `char::to_lowercase` gives for a character: its Unicode lower
/// case, one character or more.
pub uninterp spec fn char_lowercase(c: char) -> Seq<char>;

/// `char::to_lowercase`, collected into a string: the lower case of `c`,
/// named by `char_lowercase`. As std documents, the lower case of an ASCII
/// character is its ASCII lower case.
#[verifier::external_body]
pub(crate) fn lowercase_of(c: char) -> (r: String)
    ensures
        r@ == char_lowercase(c),
        '\0' <= c <= '\u{7f}' ==> r@ == seq![ascii_lower(c)],
{
    c.to_lowercase().collect()
}

/// The order of `String`: lexicographic by character (the order of their
/// UTF-8 bytes).
pub open spec fn text_lt(a: Seq<char>, b: Seq<char>) -> bool
    decreases a.len(),
{
    if a.len() == 0 {
        b.len() > 0
    } else if b.len() == 0 {
        false
    } else if a[0] != b[0] {
        (a[0] as int) < (b[0] as int)
    } else {
        text_lt(a.drop_first(), b.drop_first())
    }
}

/// The order of texts is strict and total: of two different texts exactly
/// one comes first.
pub proof fn lemma_text_lt_total(a: Seq<char>, b: Seq<char>)
    ensures
        !text_lt(a, a),
        a != b ==> (text_lt(a, b) != text_lt(b, a)),
        a == b ==> !text_lt(a, b),
    decreases a.len(),
{
    if a.len() > 0 && b.len() > 0 && a[0] == b[0] {
        lemma_text_lt_total(a.drop_first(), b.drop_first());
        if a != b {
            assert(a =~= seq![a[0]] + a.drop_first());
            assert(b =~= seq![b[0]] + b.drop_first());
        }
    }
    if a.len() > 0 {
        lemma_text_lt_total(a.drop_first(), a.drop_first());
    }
    if a.len() > 0 && b.len() > 0 && a[0] != b[0] {
        assert((a[0] as int) != (b[0] as int));
    }
    if a.len() == 0 && b.len() == 0 {
        assert(a =~= b);
    }
}

/// The order of texts is transitive.
pub proof fn lemma_text_lt_trans(a: Seq<char>, b: Seq<char>, c: Seq<char>)
    requires
        text_lt(a, b),
        text_lt(b, c),
    ensures
        text_lt(a, c),
    decreases a.len(),
{
    if a.len() > 0 && b.len() > 0 && c.len() > 0 && a[0] == b[0] && b[0] == c[0] {
        lemma_text_lt_trans(a.drop_first(), b.drop_first(), c.drop_first());
    }
}

/// Whether `a` comes before `b` in the order of `String`.
pub fn text_less(a: &[char], b: &[char]) -> (r: bool)
    ensures
        r == text_lt(a@, b@),
{
    let mut i: usize = 0;
    assert(a@.skip(0) =~= a@);
    assert(b@.skip(0) =~= b@);
    while i < a.len() && i < b.len() && a[i] == b[i]
        invariant
            i <= a@.len(),
            i <= b@.len(),
            text_lt(a@, b@) == text_lt(a@.skip(i as int), b@.skip(i as int)),
        decreases a@.len() - i,
    {
        assert(a@.skip(i as int).drop_first() =~= a@.skip(i + 1));
        assert(b@.skip(i as int).drop_first() =~= b@.skip(i + 1));
        i += 1;
    }
    if i == a.len() {
        return i < b.len();
    }
    if i == b.len() {
        return false;
    }
    assert(a@.skip(i as int)[0] == a@[i as int]);
    assert(b@.skip(i as int)[0] == b@[i as int]);
    a[i] < b[i]
}

/// `s` with `x` put before the first item whose key comes after its own:
/// one step of a stable sort by key.
pub open spec fn insert_by_key(s: Seq<(Seq<char>, usize)>, x: (Seq<char>, usize)) -> Seq<(Seq<char>, usize)>
    decreases s.len(),
{
    if s.len() == 0 {
        seq![x]
    } else if text_lt(x.0, s[0].0) {
        seq![x] + s
    } else {
        seq![s[0]] + insert_by_key(s.drop_first(), x)
    }
}

/// The items in the order of their keys, items with equal keys in their
/// first order (`slice::sort_by_key`, which is stable).
pub open spec fn sorted_by_key(s: Seq<(Seq<char>, usize)>) -> Seq<(Seq<char>, usize)>
    decreases s.len(),
{
    if s.len() == 0 {
        seq![]
    } else {
        insert_by_key(sorted_by_key(s.drop_last()), s.last())
    }
}

proof fn lemma_insert_by_key_at(s: Seq<(Seq<char>, usize)>, x: (Seq<char>, usize), j: int)
    requires
        0 <= j <= s.len(),
        forall|i: int| 0 <= i < j ==> !text_lt(x.0, #[trigger] s[i].0),
        j < s.len() ==> text_lt(x.0, s[j].0),
    ensures
        insert_by_key(s, x) == s.take(j) + seq![x] + s.skip(j),
    decreases j,
{
    if j > 0 {
        assert forall|i: int| 0 <= i < j - 1 implies !text_lt(x.0, #[trigger] s.drop_first()[i].0) by {
            assert(s.drop_first()[i] == s[i + 1]);
        }
        if j < s.len() {
            assert(s.drop_first()[j - 1] == s[j]);
        }
        lemma_insert_by_key_at(s.drop_first(), x, j - 1);
        assert(s.drop_first().take(j - 1) =~= s.take(j).drop_first());
        assert(s.drop_first().skip(j - 1) =~= s.skip(j));
        assert(insert_by_key(s, x) =~= s.take(j) + seq![x] + s.skip(j));
    } else {
        assert(s.take(0) + seq![x] + s.skip(0) =~= if s.len() == 0 {
            seq![x]
        } else {
            seq![x] + s
        });
    }
}

proof fn lemma_insert_by_key_items(s: Seq<(Seq<char>, usize)>, x: (Seq<char>, usize))
    ensures
        forall|i: int| 0 <= i < insert_by_key(s, x).len() ==> #[trigger] insert_by_key(s, x)[i] == x || s.contains(
            insert_by_key(s, x)[i],
        ),
    decreases s.len(),
{
    if s.len() > 0 {
        lemma_insert_by_key_items(s.drop_first(), x);
        let r = insert_by_key(s, x);
        assert forall|i: int| 0 <= i < r.len() implies #[trigger] r[i] == x || s.contains(r[i]) by {
            if text_lt(x.0, s[0].0) {
                if i > 0 {
                    assert(r[i] == s[i - 1]);
                }
            } else if i > 0 {
                let t = insert_by_key(s.drop_first(), x);
                assert(r[i] == t[i - 1]);
                if t[i - 1] != x {
                    let k = choose|k: int| 0 <= k < s.drop_first().len() && s.drop_first()[k] == t[i - 1];
                    assert(s[k + 1] == r[i]);
                }
            } else {
                assert(r[0] == s[0]);
            }
        }
    }
}

/// Sorting only reorders: every item of the result is an item of `s`.
pub proof fn lemma_sorted_by_key_items(s: Seq<(Seq<char>, usize)>)
    ensures
        forall|i: int| 0 <= i < sorted_by_key(s).len() ==> s.contains(#[trigger] sorted_by_key(s)[i]),
    decreases s.len(),
{
    if s.len() > 0 {
        lemma_sorted_by_key_items(s.drop_last());
        lemma_insert_by_key_items(sorted_by_key(s.drop_last()), s.last());
        let t = sorted_by_key(s.drop_last());
        let r = sorted_by_key(s);
        assert forall|i: int| 0 <= i < r.len() implies s.contains(#[trigger] r[i]) by {
            if r[i] == s.last() {
                assert(s[s.len() - 1] == r[i]);
            } else {
                assert(t.contains(r[i]));
                let k = choose|k: int| 0 <= k < t.len() && t[k] == r[i];
                assert(s.drop_last().contains(t[k]));
                let m = choose|m: int| 0 <= m < s.drop_last().len() && s.drop_last()[m] == t[k];
                assert(s[m] == r[i]);
            }
        }
    }
}

/// No key of `s` comes before a key that stands ahead of it.
pub open spec fn keys_in_order(s: Seq<(Seq<char>, usize)>) -> bool {
    forall|i: int, j: int| 0 <= i < j < s.len() ==> !text_lt(#[trigger] s[j].0, #[trigger] s[i].0)
}

proof fn lemma_empty_to_multiset(s: Seq<(Seq<char>, usize)>)
    requires
        s.len() == 0,
    ensures
        s.to_multiset() =~= Multiset::empty(),
{
    vstd::seq_lib::to_multiset_len(s);
    vstd::multiset::lemma_multiset_empty_len(s.to_multiset());
}

proof fn lemma_insert_by_key_in_order(t: Seq<(Seq<char>, usize)>, x: (Seq<char>, usize))
    requires
        keys_in_order(t),
    ensures
        keys_in_order(insert_by_key(t, x)),
        insert_by_key(t, x).to_multiset() =~= t.to_multiset().insert(x),
    decreases t.len(),
{
    broadcast use vstd::multiset::group_multiset_axioms;
    let r = insert_by_key(t, x);
    if t.len() == 0 {
        vstd::seq_lib::to_multiset_build(Seq::<(Seq<char>, usize)>::empty(), x);
        assert(seq![x] =~= Seq::<(Seq<char>, usize)>::empty().push(x));
        lemma_empty_to_multiset(t);
        lemma_empty_to_multiset(Seq::<(Seq<char>, usize)>::empty());
    } else if text_lt(x.0, t[0].0) {
        assert forall|i: int, j: int| 0 <= i < j < r.len() implies !text_lt(#[trigger] r[j].0, #[trigger] r[i].0) by {
            if i == 0 {
                assert(r[j] == t[j - 1]);
                if j - 1 > 0 {
                    assert(!text_lt(t[j - 1].0, t[0].0));
                }
                if text_lt(t[j - 1].0, x.0) {
                    lemma_text_lt_trans(t[j - 1].0, x.0, t[0].0);
                    lemma_text_lt_total(t[0].0, t[0].0);
                }
            } else {
                assert(r[i] == t[i - 1] && r[j] == t[j - 1]);
            }
        }
        vstd::seq_lib::lemma_multiset_commutative(seq![x], t);
        vstd::seq_lib::to_multiset_build(Seq::<(Seq<char>, usize)>::empty(), x);
        assert(seq![x] =~= Seq::<(Seq<char>, usize)>::empty().push(x));
        lemma_empty_to_multiset(Seq::<(Seq<char>, usize)>::empty());
    } else {
        let rest = t.drop_first();
        assert forall|i: int, j: int| 0 <= i < j < rest.len() implies !text_lt(#[trigger] rest[j].0, #[trigger] rest[i].0) by {
            assert(rest[i] == t[i + 1] && rest[j] == t[j + 1]);
        }
        lemma_insert_by_key_in_order(rest, x);
        lemma_insert_by_key_items(rest, x);
        let inner = insert_by_key(rest, x);
        assert forall|i: int, j: int| 0 <= i < j < r.len() implies !text_lt(#[trigger] r[j].0, #[trigger] r[i].0) by {
            if i == 0 {
                assert(r[0] == t[0]);
                assert(r[j] == inner[j - 1]);
                if inner[j - 1] != x {
                    let k = choose|k: int| 0 <= k < rest.len() && rest[k] == inner[j - 1];
                    assert(t[k + 1] == r[j]);
                }
            } else {
                assert(r[i] == inner[i - 1] && r[j] == inner[j - 1]);
            }
        }
        vstd::seq_lib::lemma_multiset_commutative(seq![t[0]], inner);
        vstd::seq_lib::lemma_multiset_commutative(seq![t[0]], rest);
        assert(seq![t[0]] + rest =~= t);
    }
}

/// Sorting by key puts the keys in order and keeps every item of `s`, each
/// as often as it occurs there.
pub proof fn law_sorted_by_key(s: Seq<(Seq<char>, usize)>)
    ensures
        keys_in_order(sorted_by_key(s)),
        sorted_by_key(s).to_multiset() == s.to_multiset(),
    decreases s.len(),
{
    broadcast use vstd::multiset::group_multiset_axioms;
    if s.len() == 0 {
        lemma_empty_to_multiset(s);
        lemma_empty_to_multiset(sorted_by_key(s));
    } else {
        law_sorted_by_key(s.drop_last());
        lemma_insert_by_key_in_order(sorted_by_key(s.drop_last()), s.last());
        vstd::seq_lib::to_multiset_build(s.drop_last(), s.last());
        assert(s.drop_last().push(s.last()) =~= s);
    }
}

/// Whether each item of `s` carries its own position.
pub open spec fn indexed(s: Seq<(Seq<char>, usize)>) -> bool {
    forall|i: int| 0 <= i < s.len() ==> (#[trigger] s[i]).1 == i
}

/// The place where `insert_by_key` puts `x` into `s`: before the first
/// item whose key comes after that of `x`.
proof fn lemma_insert_place(s: Seq<(Seq<char>, usize)>, x: (Seq<char>, usize)) -> (j: int)
    ensures
        0 <= j <= s.len(),
        forall|i: int| 0 <= i < j ==> !text_lt(x.0, #[trigger] s[i].0),
        j < s.len() ==> text_lt(x.0, s[j].0),
        insert_by_key(s, x) == s.take(j) + seq![x] + s.skip(j),
    decreases s.len(),
{
    if s.len() == 0 || text_lt(x.0, s[0].0) {
        lemma_insert_by_key_at(s, x, 0);
        0
    } else {
        let k = lemma_insert_place(s.drop_first(), x);
        assert forall|i: int| 0 <= i < k + 1 implies !text_lt(x.0, #[trigger] s[i].0) by {
            if i > 0 {
                assert(s[i] == s.drop_first()[i - 1]);
            }
        }
        if k + 1 < s.len() {
            assert(s[k + 1] == s.drop_first()[k]);
        }
        lemma_insert_by_key_at(s, x, k + 1);
        k + 1
    }
}

/// Sorting items that carry their positions keeps items of equal keys in
/// their first order: the sort is stable.
pub proof fn law_sorted_by_key_is_stable(s: Seq<(Seq<char>, usize)>)
    requires
        indexed(s),
        s.len() <= usize::MAX + 1,
    ensures
        forall|i: int, j: int| 0 <= i < j < sorted_by_key(s).len() && #[trigger] sorted_by_key(s)[i].0 == #[trigger] sorted_by_key(s)[j].0
            ==> sorted_by_key(s)[i].1 < sorted_by_key(s)[j].1,
    decreases s.len(),
{
    if s.len() > 0 {
        let p = s.drop_last();
        let x = s.last();
        assert(indexed(p)) by {
            assert forall|i: int| 0 <= i < p.len() implies (#[trigger] p[i]).1 == i by {
                assert(p[i] == s[i]);
            }
        }
        law_sorted_by_key_is_stable(p);
        law_sorted_by_key(p);
        lemma_sorted_by_key_items(p);
        let t = sorted_by_key(p);
        let r = sorted_by_key(s);
        assert(x.1 == s.len() - 1);
        assert forall|k: int| 0 <= k < t.len() implies (#[trigger] t[k]).1 < x.1 by {
            assert(p.contains(t[k]));
            let m = choose|m: int| 0 <= m < p.len() && p[m] == t[k];
            assert(p[m].1 == m);
        }
        let j = lemma_insert_place(t, x);
        assert(r == t.take(j) + seq![x] + t.skip(j));
        assert forall|a: int, b: int| 0 <= a < b < r.len() && #[trigger] r[a].0 == #[trigger] r[b].0 implies r[a].1 < r[b].1 by {
            if a < j && b < j {
                assert(r[a] == t[a] && r[b] == t[b]);
            } else if a < j && b == j {
                assert(r[a] == t[a] && r[b] == x);
            } else if a < j {
                assert(r[a] == t[a] && r[b] == t[b - 1]);
            } else if a == j {
                assert(r[a] == x && r[b] == t[b - 1]);
                assert(text_lt(x.0, t[j].0));
                if b - 1 > j {
                    assert(!text_lt(t[b - 1].0, t[j].0));
                    lemma_text_lt_total(t[j].0, t[b - 1].0);
                    if t[j].0 != t[b - 1].0 {
                        lemma_text_lt_trans(x.0, t[j].0, t[b - 1].0);
                    }
                }
                lemma_text_lt_total(x.0, x.0);
            } else {
                assert(r[a] == t[a - 1] && r[b] == t[b - 1]);
            }
        }
    }
}

/// Whether the list `seen` holds the text `k`.
pub fn list_holds(seen: &Vec<Vec<char>>, k: &[char]) -> (r: bool)
    ensures
        r == char_views(seen@).contains(k@),
{
    let ghost sv = char_views(seen@);
    let mut i: usize = 0;
    while i < seen.len()
        invariant
            i <= seen@.len(),
            sv == char_views(seen@),
            forall|j: int| 0 <= j < i ==> sv[j] != k@,
        decreases seen@.len() - i,
    {
        assert(sv[i as int] == seen@[i as int]@);
        if same_chars(seen[i].as_slice(), k) {
            return true;
        }
        i += 1;
    }
    false
}

/// The views of keyed items.
pub open spec fn keyed_views(v: Seq<(Vec<char>, usize)>) -> Seq<(Seq<char>, usize)> {
    v.map_values(|e: (Vec<char>, usize)| (e.0@, e.1))
}

/// The items sorted by key, stably (see `sorted_by_key`).
pub fn sort_by_text_key(items: &Vec<(Vec<char>, usize)>) -> (r: Vec<(Vec<char>, usize)>)
    ensures
        keyed_views(r@) == sorted_by_key(keyed_views(items@)),
{
    let ghost iv = keyed_views(items@);
    let mut out: Vec<(Vec<char>, usize)> = Vec::new();
    assert(keyed_views(out@) =~= sorted_by_key(iv.take(0)));
    let mut n: usize = 0;
    while n < items.len()
        invariant
            n <= items@.len(),
            iv == keyed_views(items@),
            keyed_views(out@) == sorted_by_key(iv.take(n as int)),
        decreases items@.len() - n,
    {
        let x = (copy_chars(items[n].0.as_slice()), items[n].1);
        let ghost s = keyed_views(out@);
        let ghost xv = (x.0@, x.1);
        assert(xv == iv[n as int]);
        let mut j: usize = 0;
        while j < out.len() && !text_less(x.0.as_slice(), out[j].0.as_slice())
            invariant
                j <= out@.len(),
                s == keyed_views(out@),
                xv == (x.0@, x.1),
                forall|i: int| 0 <= i < j ==> !text_lt(xv.0, #[trigger] s[i].0),
            decreases out@.len() - j,
        {
            assert(s[j as int].0 == out@[j as int].0@);
            j += 1;
        }
        proof {
            if j < out@.len() {
                assert(s[j as int].0 == out@[j as int].0@);
            }
            lemma_insert_by_key_at(s, xv, j as int);
            assert(iv.take(n + 1).drop_last() =~= iv.take(n as int));
            assert(iv.take(n + 1).last() == xv);
        }
        out.insert(j, x);
        assert(keyed_views(out@) =~= s.take(j as int) + seq![xv] + s.skip(j as int));
        n += 1;
    }
    assert(iv.take(n as int) =~= iv);
    out
}

} // verus!
