//! Text as sequences of characters: the handful of string operations that the
//! rest of the crate is built from, each with its meaning over `Seq<char>`.
use vstd::prelude::*;
use vstd::string::StringExecFns;

verus! {

/// `String::push` of std: the character is added at the end.
pub assume_specification[ std::string::String::push ](s: &mut std::string::String, c: char)
    ensures
        final(s)@ == old(s)@.push(c),
;

/// The characters with the Unicode property `White_Space`.
pub open spec fn is_space(c: char) -> bool {
    let u = c as u32;
    ||| 0x09 <= u <= 0x0d
    ||| u == 0x20
    ||| u == 0x85
    ||| u == 0xa0
    ||| u == 0x1680
    ||| 0x2000 <= u <= 0x200a
    ||| u == 0x2028
    ||| u == 0x2029
    ||| u == 0x202f
    ||| u == 0x205f
    ||| u == 0x3000
}

/// Whether `c` is white space.
pub fn space(c: char) -> (r: bool)
    ensures
        r == is_space(c),
{
    let u = c as u32;
    (0x09 <= u && u <= 0x0d) || u == 0x20 || u == 0x85 || u == 0xa0 || u == 0x1680 || (0x2000 <= u && u <= 0x200a)
        || u == 0x2028 || u == 0x2029 || u == 0x202f || u == 0x205f || u == 0x3000
}

/// The control characters (general category `Cc`).
pub open spec fn is_control(c: char) -> bool {
    c as u32 <= 0x1f || 0x7f <= c as u32 <= 0x9f
}

/// Whether `c` is a control character.
pub fn control(c: char) -> (r: bool)
    ensures
        r == is_control(c),
{
    let u = c as u32;
    u <= 0x1f || (0x7f <= u && u <= 0x9f)
}

/// The characters `'0'` to `'9'`.
pub open spec fn is_digit(c: char) -> bool {
    '0' as u32 <= c as u32 <= '9' as u32
}

/// Whether `c` is an ASCII digit.
pub fn digit(c: char) -> (r: bool)
    ensures
        r == is_digit(c),
{
    let u = c as u32;
    0x30 <= u && u <= 0x39
}

/// The characters of `text`, one by one.
pub fn chars(text: &str) -> (r: Vec<char>)
    ensures
        r@ == text@,
{
    let mut out: Vec<char> = Vec::new();
    for c in it: text.chars()
        invariant
            out@ == it.seq().take(it.index()),
            it.seq() == text@,
    {
        out.push(c);
        proof {
            assert(it.seq().take(it.index() + 1) =~= it.seq().take(it.index()).push(c));
        }
    }
    proof {
        assert(text@.take(text@.len() as int) =~= text@);
    }
    out
}

/// The text that the given characters spell.
pub fn string(chars: &[char]) -> (r: String)
    ensures
        r@ == chars@,
{
    let mut out = String::new();
    let mut i: usize = 0;
    while i < chars.len()
        invariant
            i <= chars@.len(),
            out@ == chars@.take(i as int),
        decreases chars@.len() - i,
    {
        out.push(chars[i]);
        proof {
            assert(chars@.take(i + 1) =~= chars@.take(i as int).push(chars@[i as int]));
        }
        i += 1;
    }
    proof {
        assert(chars@.take(i as int) =~= chars@);
    }
    out
}

/// Whether two texts are the same.
pub fn same(a: &str, b: &str) -> (r: bool)
    ensures
        r == (a@ == b@),
{
    let x = a.as_bytes();
    let y = b.as_bytes();
    proof {
        vstd::utf8::encode_utf8_decode_utf8(a@);
        vstd::utf8::encode_utf8_decode_utf8(b@);
    }
    if x.len() != y.len() {
        return false;
    }
    let mut i: usize = 0;
    while i < x.len()
        invariant
            i <= x@.len(),
            x@.len() == y@.len(),
            x@ == vstd::utf8::encode_utf8(a@),
            y@ == vstd::utf8::encode_utf8(b@),
            forall|k: int| 0 <= k < i ==> x@[k] == y@[k],
        decreases x@.len() - i,
    {
        if x[i] != y[i] {
            return false;
        }
        i += 1;
    }
    proof {
        assert(x@ =~= y@);
    }
    true
}

/// The number of characters at the start of `s` that satisfy `p`.
pub open spec fn span(s: Seq<char>, p: spec_fn(char) -> bool) -> int
    decreases s.len(),
{
    if s.len() == 0 || !p(s[0]) {
        0
    } else {
        1 + span(s.drop_first(), p)
    }
}

/// The number of characters at the end of `s` that satisfy `p`.
pub open spec fn span_back(s: Seq<char>, p: spec_fn(char) -> bool) -> int
    decreases s.len(),
{
    if s.len() == 0 || !p(s.last()) {
        0
    } else {
        1 + span_back(s.drop_last(), p)
    }
}

pub proof fn lemma_span(s: Seq<char>, p: spec_fn(char) -> bool)
    ensures
        0 <= span(s, p) <= s.len(),
        forall|k: int| 0 <= k < span(s, p) ==> p(#[trigger] s[k]),
        span(s, p) < s.len() ==> !p(s[span(s, p)]),
    decreases s.len(),
{
    if s.len() > 0 && p(s[0]) {
        let t = s.drop_first();
        lemma_span(t, p);
        assert forall|k: int| 0 <= k < span(s, p) implies p(#[trigger] s[k]) by {
            if k > 0 {
                assert(s[k] == t[k - 1]);
            }
        }
    }
}

pub proof fn lemma_span_is(s: Seq<char>, p: spec_fn(char) -> bool, n: int)
    requires
        0 <= n <= s.len(),
        forall|k: int| 0 <= k < n ==> p(#[trigger] s[k]),
        n < s.len() ==> !p(s[n]),
    ensures
        span(s, p) == n,
{
    lemma_span(s, p);
    let m = span(s, p);
    if m < n {
        assert(p(s[m]));
    } else if n < m {
        assert(p(s[n]));
    }
}

pub proof fn lemma_span_back(s: Seq<char>, p: spec_fn(char) -> bool)
    ensures
        0 <= span_back(s, p) <= s.len(),
        forall|k: int| s.len() - span_back(s, p) <= k < s.len() ==> p(#[trigger] s[k]),
        span_back(s, p) < s.len() ==> !p(s[s.len() - span_back(s, p) - 1]),
    decreases s.len(),
{
    if s.len() > 0 && p(s.last()) {
        let t = s.drop_last();
        lemma_span_back(t, p);
        assert forall|k: int| s.len() - span_back(s, p) <= k < s.len() implies p(#[trigger] s[k]) by {
            if k < t.len() {
                assert(s[k] == t[k]);
            }
        }
        if span_back(s, p) < s.len() {
            assert(t[t.len() - span_back(t, p) - 1] == s[s.len() - span_back(s, p) - 1]);
        }
    }
}

pub proof fn lemma_span_back_is(s: Seq<char>, p: spec_fn(char) -> bool, n: int)
    requires
        0 <= n <= s.len(),
        forall|k: int| s.len() - n <= k < s.len() ==> p(#[trigger] s[k]),
        n < s.len() ==> !p(s[s.len() - n - 1]),
    ensures
        span_back(s, p) == n,
{
    lemma_span_back(s, p);
    let m = span_back(s, p);
    if m < n {
        assert(p(s[s.len() - m - 1]));
    } else if n < m {
        assert(p(s[s.len() - n - 1]));
    }
}

/// The number of leading white-space characters.
pub open spec fn leading_spaces(s: Seq<char>) -> int {
    span(s, |c: char| is_space(c))
}

/// The number of trailing white-space characters.
pub open spec fn trailing_spaces(s: Seq<char>) -> int {
    span_back(s, |c: char| is_space(c))
}

/// `s` without leading white space.
pub open spec fn trim_start(s: Seq<char>) -> Seq<char> {
    s.skip(leading_spaces(s))
}

/// `s` without white space at either end.
pub open spec fn trim(s: Seq<char>) -> Seq<char> {
    let t = trim_start(s);
    t.take(t.len() - trailing_spaces(t))
}

/// The characters `from..to` of `s`.
pub fn slice(s: &[char], from: usize, to: usize) -> (r: Vec<char>)
    requires
        from <= to <= s@.len(),
    ensures
        r@ == s@.subrange(from as int, to as int),
{
    vstd::slice::slice_to_vec(vstd::slice::slice_subrange(s, from, to))
}

/// Adds `more` at the end of `out`.
pub fn extend(out: &mut Vec<char>, more: &[char])
    ensures
        final(out)@ == old(out)@ + more@,
{
    let mut i: usize = 0;
    let ghost before = out@;
    while i < more.len()
        invariant
            i <= more@.len(),
            out@ == before + more@.take(i as int),
        decreases more@.len() - i,
    {
        out.push(more[i]);
        proof {
            assert(more@.take(i + 1) =~= more@.take(i as int).push(more@[i as int]));
            assert(before + more@.take(i + 1) =~= (before + more@.take(i as int)).push(more@[i as int]));
        }
        i += 1;
    }
    proof {
        assert(more@.take(i as int) =~= more@);
    }
}

/// Counts the leading white space of `s`.
pub fn count_leading_spaces(s: &[char]) -> (r: usize)
    ensures
        r == leading_spaces(s@),
        r <= s@.len(),
{
    let mut i: usize = 0;
    while i < s.len() && space(s[i])
        invariant
            i <= s@.len(),
            forall|k: int| 0 <= k < i ==> is_space(#[trigger] s@[k]),
        decreases s@.len() - i,
    {
        i += 1;
    }
    proof {
        lemma_span_is(s@, |c: char| is_space(c), i as int);
    }
    i
}

/// `s` without leading white space.
pub fn trimmed_start(s: &[char]) -> (r: Vec<char>)
    ensures
        r@ == trim_start(s@),
{
    let from = count_leading_spaces(s);
    slice(s, from, s.len())
}

/// `s` without white space at either end.
pub fn trimmed(s: &[char]) -> (r: Vec<char>)
    ensures
        r@ == trim(s@),
{
    let t = trimmed_start(s);
    let mut end: usize = t.len();
    while end > 0 && space(t[end - 1])
        invariant
            end <= t@.len(),
            forall|k: int| end <= k < t@.len() ==> is_space(#[trigger] t@[k]),
        decreases end,
    {
        end -= 1;
    }
    proof {
        lemma_span_back_is(t@, |c: char| is_space(c), t@.len() - end);
    }
    slice(&t, 0, end)
}

/// The predicate that holds of every character but `c`.
pub open spec fn other_than(c: char) -> spec_fn(char) -> bool {
    |x: char| x != c
}

/// The position of the first `c` in `s`, or the length of `s`.
pub open spec fn first(s: Seq<char>, c: char) -> int {
    span(s, other_than(c))
}

/// The position of the first `c` in `s`.
pub fn find(s: &[char], c: char) -> (r: Option<usize>)
    ensures
        r matches Some(i) ==> i < s@.len() && i == first(s@, c) && s@[i as int] == c,
        r is None ==> first(s@, c) == s@.len() && !s@.contains(c),
{
    let mut i: usize = 0;
    while i < s.len()
        invariant
            i <= s@.len(),
            forall|k: int| 0 <= k < i ==> #[trigger] s@[k] != c,
        decreases s@.len() - i,
    {
        if s[i] == c {
            proof {
                lemma_span_is(s@, other_than(c), i as int);
            }
            return Some(i);
        }
        i += 1;
    }
    proof {
        lemma_span_is(s@, other_than(c), i as int);
    }
    None
}

/// What each piece spells.
pub open spec fn views(pieces: Seq<Vec<char>>) -> Seq<Seq<char>> {
    pieces.map_values(|p: Vec<char>| p@)
}

/// What each text spells.
pub open spec fn texts(pieces: Seq<String>) -> Seq<Seq<char>> {
    pieces.map_values(|p: String| p@)
}

/// The pieces of `s` between the occurrences of `c`; one more than there are
/// occurrences.
pub open spec fn split(s: Seq<char>, c: char) -> Seq<Seq<char>>
    decreases s.len(),
    via split_decreases
{
    let i = first(s, c);
    if i >= s.len() {
        seq![s]
    } else {
        seq![s.take(i)] + split(s.skip(i + 1), c)
    }
}

#[via_fn]
proof fn split_decreases(s: Seq<char>, c: char) {
    lemma_span(s, other_than(c));
}

/// Splits `s` at every `c`.
pub fn pieces(s: &[char], c: char) -> (r: Vec<Vec<char>>)
    ensures
        views(r@) == split(s@, c),
        r@.len() > 0,
{
    let mut out: Vec<Vec<char>> = Vec::new();
    let mut start: usize = 0;
    let mut i: usize = 0;
    proof {
        assert(s@.skip(0) =~= s@);
        assert(views(out@) + split(s@, c) =~= split(s@, c));
    }
    while i < s.len()
        invariant
            start <= i <= s@.len(),
            forall|k: int| start <= k < i ==> #[trigger] s@[k] != c,
            views(out@) + split(s@.skip(start as int), c) == split(s@, c),
        decreases s@.len() - i,
    {
        if s[i] == c {
            let piece = slice(s, start, i);
            proof {
                let rest = s@.skip(start as int);
                lemma_span_is(rest, other_than(c), i - start);
                assert(rest.take(i - start) =~= piece@);
                assert(rest.skip(i - start + 1) =~= s@.skip(i + 1));
                let head = seq![rest.take(i - start)];
                assert(split(rest, c) == head + split(s@.skip(i + 1), c));
                assert(views(out@.push(piece)) =~= views(out@) + head);
                assert(views(out@) + (head + split(s@.skip(i + 1), c)) =~= (views(out@) + head) + split(
                    s@.skip(i + 1),
                    c,
                ));
            }
            out.push(piece);
            start = i + 1;
        }
        i += 1;
    }
    let piece = slice(s, start, s.len());
    proof {
        let rest = s@.skip(start as int);
        lemma_span_is(rest, other_than(c), rest.len() as int);
        assert(piece@ =~= rest);
        assert(split(rest, c) == seq![rest]);
        assert(views(out@.push(piece)) =~= views(out@) + seq![rest]);
    }
    out.push(piece);
    out
}

/// The lines of `s`: a line ends at a line feed, which with a carriage return
/// before it is left out; nothing follows a final line feed.
pub open spec fn lines(s: Seq<char>) -> Seq<Seq<char>>
    decreases s.len(),
    via lines_decreases
{
    let i = first(s, '\n');
    if s.len() == 0 {
        seq![]
    } else if i >= s.len() {
        seq![s]
    } else {
        seq![without_return(s.take(i))] + lines(s.skip(i + 1))
    }
}

#[via_fn]
proof fn lines_decreases(s: Seq<char>) {
    lemma_span(s, other_than('\n'));
}

/// `s` without one carriage return at its end.
pub open spec fn without_return(s: Seq<char>) -> Seq<char> {
    if s.len() > 0 && s.last() == '\r' {
        s.drop_last()
    } else {
        s
    }
}

/// Splits `s` into its lines.
pub fn line_pieces(s: &[char]) -> (r: Vec<Vec<char>>)
    ensures
        views(r@) == lines(s@),
{
    let mut out: Vec<Vec<char>> = Vec::new();
    let mut start: usize = 0;
    let mut i: usize = 0;
    proof {
        assert(s@.skip(0) =~= s@);
        assert(views(out@) + lines(s@) =~= lines(s@));
    }
    while i < s.len()
        invariant
            start <= i <= s@.len(),
            forall|k: int| start <= k < i ==> #[trigger] s@[k] != '\n',
            views(out@) + lines(s@.skip(start as int)) == lines(s@),
        decreases s@.len() - i,
    {
        if s[i] == '\n' {
            let end: usize = if i > start && s[i - 1] == '\r' {
                i - 1
            } else {
                i
            };
            let piece = slice(s, start, end);
            proof {
                let rest = s@.skip(start as int);
                lemma_span_is(rest, other_than('\n'), i - start);
                assert(without_return(rest.take(i - start)) =~= piece@);
                assert(rest.skip(i - start + 1) =~= s@.skip(i + 1));
                let head = seq![without_return(rest.take(i - start))];
                assert(lines(rest) == head + lines(s@.skip(i + 1)));
                assert(views(out@.push(piece)) =~= views(out@) + head);
                assert(views(out@) + (head + lines(s@.skip(i + 1))) =~= (views(out@) + head) + lines(s@.skip(i + 1)));
            }
            out.push(piece);
            start = i + 1;
        }
        i += 1;
    }
    proof {
        lemma_span_is(s@.skip(start as int), other_than('\n'), s@.len() - start);
    }
    if start < s.len() {
        let piece = slice(s, start, s.len());
        proof {
            let rest = s@.skip(start as int);
            assert(piece@ =~= rest);
            assert(lines(rest) == seq![rest]);
            assert(views(out@.push(piece)) =~= views(out@) + seq![rest]);
        }
        out.push(piece);
    } else {
        proof {
            assert(views(out@) + lines(s@.skip(start as int)) =~= views(out@));
        }
    }
    out
}

/// The pieces with `sep` between them.
pub open spec fn join(pieces: Seq<Seq<char>>, sep: Seq<char>) -> Seq<char>
    decreases pieces.len(),
{
    if pieces.len() == 0 {
        seq![]
    } else if pieces.len() == 1 {
        pieces[0]
    } else {
        join(pieces.drop_last(), sep) + sep + pieces.last()
    }
}

/// Joins `pieces` with `sep` between them.
pub fn joined(pieces: &[Vec<char>], sep: &[char]) -> (r: Vec<char>)
    ensures
        r@ == join(views(pieces@), sep@),
{
    let mut out: Vec<char> = Vec::new();
    let mut i: usize = 0;
    proof {
        assert(views(pieces@).take(0) =~= seq![]);
    }
    while i < pieces.len()
        invariant
            i <= pieces@.len(),
            out@ == join(views(pieces@).take(i as int), sep@),
        decreases pieces@.len() - i,
    {
        proof {
            let all = views(pieces@);
            assert(all.take(i + 1).drop_last() =~= all.take(i as int));
            assert(all.take(i + 1).last() == pieces@[i as int]@);
            if i == 0 {
                assert(join(all.take(1), sep@) == pieces@[0]@);
            }
        }
        if i > 0 {
            extend(&mut out, sep);
        }
        extend(&mut out, &pieces[i]);
        proof {
            if i == 0 {
                assert(out@ =~= pieces@[0]@);
            }
        }
        i += 1;
    }
    proof {
        assert(views(pieces@).take(i as int) =~= views(pieces@));
    }
    out
}

/// Whether `s` begins with `prefix`.
pub fn starts_with(s: &[char], prefix: &[char]) -> (r: bool)
    ensures
        r == prefix@.is_prefix_of(s@),
{
    if prefix.len() > s.len() {
        return false;
    }
    let mut i: usize = 0;
    while i < prefix.len()
        invariant
            i <= prefix@.len() <= s@.len(),
            forall|k: int| 0 <= k < i ==> prefix@[k] == s@[k],
        decreases prefix@.len() - i,
    {
        if prefix[i] != s[i] {
            proof {
                assert(s@.subrange(0, prefix@.len() as int)[i as int] == s@[i as int]);
            }
            return false;
        }
        i += 1;
    }
    proof {
        assert(prefix@ =~= s@.subrange(0, prefix@.len() as int));
    }
    true
}

/// The decimal digits of `n`, without leading zeros.
pub open spec fn decimal(n: nat) -> Seq<char>
    decreases n,
{
    if n < 10 {
        seq![digit_char(n)]
    } else {
        decimal(n / 10).push(digit_char(n % 10))
    }
}

/// The digit for `d`, which is below ten.
pub open spec fn digit_char(d: nat) -> char {
    ('0' as u32 + d) as char
}

/// The number that the digits of `s` spell.
pub open spec fn digits_value(s: Seq<char>) -> nat
    decreases s.len(),
{
    if s.len() == 0 {
        0
    } else {
        digits_value(s.drop_last()) * 10 + digit_value(s.last())
    }
}

/// The value of one digit.
pub open spec fn digit_value(c: char) -> nat {
    (c as u32 - '0' as u32) as nat
}

/// Writes `n` in decimal.
pub fn number(n: u128) -> (r: Vec<char>)
    ensures
        r@ == decimal(n as nat),
    decreases n,
{
    if n < 10 {
        let mut out: Vec<char> = Vec::new();
        out.push(digit_of(n as u32));
        proof {
            assert(out@ =~= decimal(n as nat));
        }
        out
    } else {
        let mut out = number(n / 10);
        out.push(digit_of((n % 10) as u32));
        out
    }
}

fn digit_of(d: u32) -> (r: char)
    requires
        d < 10,
    ensures
        r == digit_char(d as nat),
{
    (0x30u8 + d as u8) as char
}

/// A signed number in decimal.
pub open spec fn signed_decimal(n: int) -> Seq<char> {
    if n < 0 {
        seq!['-'] + decimal((-n) as nat)
    } else {
        decimal(n as nat)
    }
}

/// Writes `n` in decimal.
pub fn digits(n: u64) -> (r: String)
    ensures
        r@ == decimal(n as nat),
{
    string(&number(n as u128))
}

/// Writes `n` in decimal, with a sign where it is negative.
pub fn signed_digits(n: i32) -> (r: String)
    ensures
        r@ == signed_decimal(n as int),
{
    if n < 0 {
        let mut out: Vec<char> = Vec::new();
        out.push('-');
        extend(&mut out, &number((-(n as i64)) as u128));
        string(&out)
    } else {
        string(&number(n as u128))
    }
}

/// `a` and then `b`.
pub fn cat(a: &str, b: &str) -> (r: String)
    ensures
        r@ == a@ + b@,
{
    let mut out = a.to_owned();
    out.append(b);
    out
}

/// The position of the last `c` in `s`, or -1.
pub open spec fn last(s: Seq<char>, c: char) -> int {
    s.len() - 1 - span_back(s, other_than(c))
}

/// The position of the last `c` in `s`.
pub fn find_last(s: &[char], c: char) -> (r: Option<usize>)
    ensures
        r matches Some(i) ==> i < s@.len() && i == last(s@, c) && s@[i as int] == c,
        r is None ==> last(s@, c) == -1,
{
    let mut i: usize = s.len();
    while i > 0
        invariant
            i <= s@.len(),
            forall|k: int| i <= k < s@.len() ==> #[trigger] s@[k] != c,
        decreases i,
    {
        if s[i - 1] == c {
            proof {
                lemma_span_back_is(s@, other_than(c), s@.len() - i);
            }
            return Some(i - 1);
        }
        i -= 1;
    }
    proof {
        lemma_span_back_is(s@, other_than(c), s@.len() as int);
    }
    None
}

/// The number of leading characters that are no white space.
pub open spec fn word_len(s: Seq<char>) -> int {
    span(s, |c: char| !is_space(c))
}

/// The words of `s`, between white space.
pub open spec fn words(s: Seq<char>) -> Seq<Seq<char>>
    decreases s.len(),
    via words_decreases
{
    let t = trim_start(s);
    if t.len() == 0 {
        seq![]
    } else {
        seq![t.take(word_len(t))] + words(t.skip(word_len(t)))
    }
}

#[via_fn]
proof fn words_decreases(s: Seq<char>) {
    let t = trim_start(s);
    lemma_span(s, |c: char| is_space(c));
    lemma_span(t, |c: char| !is_space(c));
}

/// The words of `s`, between white space.
pub fn split_words(s: &[char]) -> (r: Vec<Vec<char>>)
    ensures
        views(r@) == words(s@),
{
    let mut out: Vec<Vec<char>> = Vec::new();
    let mut rest = trimmed_start(s);
    assert(views(out@) + words(s@) =~= words(s@));
    proof {
        lemma_trim_twice(s@);
    }
    while rest.len() > 0
        invariant
            trim_start(rest@) == rest@,
            views(out@) + words(rest@) == words(s@),
        decreases rest@.len(),
    {
        let mut n: usize = 0;
        while n < rest.len() && !space(rest[n])
            invariant
                n <= rest@.len(),
                forall|k: int| 0 <= k < n ==> !is_space(#[trigger] rest@[k]),
            decreases rest@.len() - n,
        {
            n += 1;
        }
        proof {
            lemma_span_is(rest@, |c: char| !is_space(c), n as int);
            lemma_span(rest@, |c: char| is_space(c));
            assert(rest@.skip(0) =~= rest@);
            if n == 0 {
                lemma_first_word(rest@);
            }
        }
        let ghost held = views(out@);
        let word = slice(&rest, 0, n);
        let tail = slice(&rest, n, rest.len());
        proof {
            assert(word@ =~= rest@.take(n as int));
            assert(tail@ =~= rest@.skip(n as int));
            lemma_trim_twice(tail@);
        }
        out.push(word);
        rest = trimmed_start(&tail);
        proof {
            assert(views(out@) =~= held.push(word@));
            assert(held.push(word@) + words(rest@) =~= held + (seq![word@] + words(tail@)));
        }
    }
    assert(views(out@) + words(rest@) =~= views(out@));
    out
}

/// White space at the front is gone after one trim.
proof fn lemma_trim_twice(s: Seq<char>)
    ensures
        trim_start(trim_start(s)) == trim_start(s),
        words(trim_start(s)) == words(s),
        trim_start(s).len() <= s.len(),
{
    let p = |c: char| is_space(c);
    let t = trim_start(s);
    lemma_span(s, p);
    if t.len() > 0 {
        assert(t[0] == s[span(s, p)]);
    }
    assert(span(t, p) == 0);
    assert(t.skip(0) =~= t);
}

/// A trimmed text begins with a word.
proof fn lemma_first_word(s: Seq<char>)
    requires
        s.len() > 0,
        trim_start(s) == s,
    ensures
        !is_space(s[0]),
{
    let p = |c: char| is_space(c);
    lemma_span(s, p);
    if is_space(s[0]) {
        assert(span(s, p) >= 1);
        assert(trim_start(s).len() < s.len());
    }
}

/// A number that is written down is read back, and is written with digits
/// alone; only zero begins with a zero.
pub proof fn law_numbers_are_read_back(n: nat)
    ensures
        digits_value(decimal(n)) == n,
        decimal(n).len() > 0,
        forall|k: int| 0 <= k < decimal(n).len() ==> '0' <= #[trigger] decimal(n)[k] <= '9',
        decimal(n)[0] == '0' ==> n == 0,
    decreases n,
{
    if n < 10 {
        let s = decimal(n);
        assert(s.drop_last() =~= seq![]);
        assert(digits_value(s) == digits_value(s.drop_last()) * 10 + digit_value(s.last()));
    } else {
        law_numbers_are_read_back(n / 10);
        let s = decimal(n);
        let high = decimal(n / 10);
        assert(s.drop_last() =~= high);
        assert forall|k: int| 0 <= k < s.len() implies '0' <= #[trigger] s[k] <= '9' by {
            if k < high.len() {
                assert(s[k] == high[k]);
            }
        }
        assert(s[0] == high[0]);
    }
}

/// Numbers with and without a sign are told apart: no two are written alike.
pub proof fn law_numbers_are_told_apart(a: int, b: int)
    requires
        signed_decimal(a) == signed_decimal(b),
    ensures
        a == b,
{
    law_numbers_are_read_back(if a < 0 { (-a) as nat } else { a as nat });
    law_numbers_are_read_back(if b < 0 { (-b) as nat } else { b as nat });
    if a < 0 {
        assert(signed_decimal(a)[0] == '-');
        assert(signed_decimal(a).skip(1) =~= decimal((-a) as nat));
    } else {
        assert(signed_decimal(a)[0] == decimal(a as nat)[0]);
    }
    if b < 0 {
        assert(signed_decimal(b)[0] == '-');
        assert(signed_decimal(b).skip(1) =~= decimal((-b) as nat));
    } else {
        assert(signed_decimal(b)[0] == decimal(b as nat)[0]);
    }
}

pub proof fn lemma_join_first(pieces: Seq<Seq<char>>, sep: Seq<char>)
    requires
        pieces.len() > 1,
    ensures
        join(pieces, sep) == pieces[0] + sep + join(pieces.drop_first(), sep),
    decreases pieces.len(),
{
    let rest = pieces.drop_first();
    if pieces.len() == 2 {
        assert(pieces.drop_last() =~= seq![pieces[0]]);
        assert(rest =~= seq![pieces[1]]);
        assert(join(pieces.drop_last(), sep) == pieces[0]);
        assert(join(rest, sep) == pieces[1]);
        assert(pieces.last() == pieces[1]);
        assert(join(pieces, sep) =~= pieces[0] + sep + join(rest, sep));
    } else {
        lemma_join_first(pieces.drop_last(), sep);
        assert(pieces.drop_last().drop_first() =~= rest.drop_last());
        assert(join(pieces, sep) =~= pieces[0] + sep + join(rest, sep));
    }
}

/// Joining loses no piece, adds nothing but the separator between neighbours,
/// and a single piece stays as it is. Joined with a character that no piece
/// holds, the pieces are found again by splitting there.
pub proof fn law_joined_pieces_are_found_again(pieces: Seq<Seq<char>>, c: char)
    requires
        pieces.len() > 0,
        forall|k: int| 0 <= k < pieces.len() ==> !(#[trigger] pieces[k]).contains(c),
    ensures
        split(join(pieces, seq![c]), c) == pieces,
    decreases pieces.len(),
{
    let sep = seq![c];
    let s = join(pieces, sep);
    let p = pieces[0];
    assert(!p.contains(c));
    assert forall|k: int| 0 <= k < p.len() implies other_than(c)(#[trigger] p[k]) by {
        if p[k] == c {
            assert(p.contains(c));
        }
    }
    if pieces.len() == 1 {
        lemma_span_is(s, other_than(c), s.len() as int);
        assert(split(s, c) =~= pieces);
    } else {
        let rest = pieces.drop_first();
        lemma_join_first(pieces, sep);
        let n = p.len() as int;
        assert forall|k: int| 0 <= k < n implies other_than(c)(#[trigger] s[k]) by {
            assert(s[k] == p[k]);
        }
        assert(s[n] == c);
        lemma_span_is(s, other_than(c), n);
        assert(s.take(n) =~= p);
        assert(s.skip(n + 1) =~= join(rest, sep));
        assert forall|k: int| 0 <= k < rest.len() implies !(#[trigger] rest[k]).contains(c) by {
            assert(rest[k] == pieces[k + 1]);
        }
        law_joined_pieces_are_found_again(rest, c);
        assert(split(s, c) =~= pieces);
    }
}

/// Splitting loses nothing: no piece holds the character, and joined with it
/// the pieces are the text again.
pub proof fn law_split_pieces_make_the_text(s: Seq<char>, c: char)
    ensures
        split(s, c).len() > 0,
        join(split(s, c), seq![c]) == s,
        forall|k: int| 0 <= k < split(s, c).len() ==> !(#[trigger] split(s, c)[k]).contains(c),
    decreases s.len(),
{
    lemma_span(s, other_than(c));
    let i = first(s, c);
    let pieces = split(s, c);
    if i >= s.len() {
        assert(!s.contains(c)) by {
            if s.contains(c) {
                let k = choose|k: int| 0 <= k < s.len() && s[k] == c;
                assert(other_than(c)(s[k]));
            }
        }
        assert(join(pieces, seq![c]) =~= s);
    } else {
        let head = s.take(i);
        let rest = s.skip(i + 1);
        law_split_pieces_make_the_text(rest, c);
        assert(!head.contains(c)) by {
            if head.contains(c) {
                let k = choose|k: int| 0 <= k < head.len() && head[k] == c;
                assert(other_than(c)(s[k]));
            }
        }
        assert(s[i] == c);
        assert(pieces.drop_first() =~= split(rest, c));
        lemma_join_first(pieces, seq![c]);
        assert(join(pieces, seq![c]) =~= s);
        assert forall|k: int| 0 <= k < pieces.len() implies !(#[trigger] pieces[k]).contains(c) by {
            if k > 0 {
                assert(pieces[k] == split(rest, c)[k - 1]);
            }
        }
    }
}

/// Trimming takes white space away and nothing else, and leaves none at either
/// end.
pub proof fn law_trimming_takes_space_alone(s: Seq<char>)
    ensures
        exists|i: int, j: int| 0 <= i <= j <= s.len() && #[trigger] s.subrange(i, j) == trim(s) && (forall|k: int|
            0 <= k < i || j <= k < s.len() ==> is_space(#[trigger] s[k])),
        trim(s).len() > 0 ==> !is_space(trim(s)[0]) && !is_space(trim(s).last()),
{
    let p = |c: char| is_space(c);
    lemma_span(s, p);
    let i = leading_spaces(s);
    let t = trim_start(s);
    lemma_span_back(t, p);
    let j = s.len() - trailing_spaces(t);
    assert(s.subrange(i, j) =~= trim(s));
    assert forall|k: int| 0 <= k < i || j <= k < s.len() implies is_space(#[trigger] s[k]) by {
        if k < i {
            assert(p(s[k]));
        } else {
            assert(p(t[k - i]));
        }
    }
    if trim(s).len() > 0 {
        assert(!p(s[i]));
        assert(trim(s)[0] == s[i]);
        assert(!p(t[t.len() - trailing_spaces(t) - 1]));
    }
}

/// The white space of Unicode, and the control characters.
pub proof fn law_spaces_and_controls(c: char)
    ensures
        is_space(c) <==> (c == ' ' || '\t' <= c <= '\r' || c == '\u{85}' || c == '\u{a0}' || c == '\u{1680}'
            || '\u{2000}' <= c <= '\u{200a}' || c == '\u{2028}' || c == '\u{2029}' || c == '\u{202f}' || c == '\u{205f}'
            || c == '\u{3000}'),
        is_control(c) <==> (c < ' ' || '\u{7f}' <= c < '\u{a0}'),
        is_digit(c) <==> '0' <= c <= '9',
{
}

/// Lines end at line feeds, and lose a carriage return before one; a line feed at
/// the end begins no further line.
pub proof fn law_texts_are_cut_at_line_feeds(line: Seq<char>, rest: Seq<char>)
    requires
        !line.contains('\n'),
    ensures
        lines(seq![]) == Seq::<Seq<char>>::empty(),
        line.len() > 0 ==> lines(line) == seq![line],
        line.len() == 0 || line.last() != '\r' ==> lines(line.push('\n') + rest) == seq![line] + lines(rest),
        lines(line.push('\r').push('\n') + rest) == seq![line] + lines(rest),
{
    let n = line.len() as int;
    let a = line.push('\n') + rest;
    let b = line.push('\r').push('\n') + rest;
    lemma_span(line, other_than('\n'));
    let i = first(line, '\n');
    if i < n {
        assert(!other_than('\n')(line[i]));
        assert(line.contains(line[i]));
    }
    assert forall|k: int| 0 <= k < n implies other_than('\n')(#[trigger] a[k]) by {
        assert(a[k] == line[k]);
        assert(line.contains(line[k]));
    }
    assert forall|k: int| 0 <= k < n + 1 implies other_than('\n')(#[trigger] b[k]) by {
        if k < n {
            assert(b[k] == line[k]);
            assert(line.contains(line[k]));
        } else {
            assert(b[k] == '\r');
        }
    }
    assert(a[n] == '\n' && b[n + 1] == '\n');
    lemma_span_is(a, other_than('\n'), n);
    lemma_span_is(b, other_than('\n'), n + 1);
    assert(a.take(n) =~= line);
    assert(b.take(n + 1) =~= line.push('\r'));
    assert(line.push('\r').drop_last() =~= line);
    assert(a.skip(n + 1) =~= rest);
    assert(b.skip(n + 2) =~= rest);
}

/// Words stand between white space: the first one goes up to the next space, and
/// the others are the words behind it. Space alone holds none.
pub proof fn law_words_stand_between_spaces(spaces: Seq<char>, word: Seq<char>, rest: Seq<char>)
    requires
        forall|k: int| 0 <= k < spaces.len() ==> is_space(#[trigger] spaces[k]),
        word.len() > 0,
        forall|k: int| 0 <= k < word.len() ==> !is_space(#[trigger] word[k]),
        rest.len() == 0 || is_space(rest[0]),
    ensures
        words(spaces + word + rest) == seq![word] + words(rest),
        words(spaces).len() == 0,
{
    let p = |c: char| is_space(c);
    let q = |c: char| !is_space(c);
    let s = spaces + word + rest;
    let n = spaces.len() as int;
    assert forall|k: int| 0 <= k < n implies p(#[trigger] s[k]) by {
        assert(s[k] == spaces[k]);
        assert(is_space(spaces[k]));
    }
    assert(s[n] == word[0]);
    assert(!p(s[n])) by {
        assert(!is_space(word[0]));
    }
    lemma_span_is(s, p, n);
    let t = word + rest;
    assert(trim_start(s) =~= t);
    assert forall|k: int| 0 <= k < word.len() implies q(#[trigger] t[k]) by {
        assert(t[k] == word[k]);
        assert(!is_space(word[k]));
    }
    if rest.len() > 0 {
        assert(t[word.len() as int] == rest[0]);
    }
    lemma_span_is(t, q, word.len() as int);
    assert(t.take(word.len() as int) =~= word);
    assert(t.skip(word.len() as int) =~= rest);
    assert forall|k: int| 0 <= k < n implies p(#[trigger] spaces[k]) by {
        assert(is_space(spaces[k]));
    }
    lemma_span_is(spaces, p, n);
    assert(trim_start(spaces) =~= seq![]);
}

/// One more digit makes a number tenfold and adds its value.
pub proof fn law_digits_are_read_from_the_left(s: Seq<char>, d: nat)
    requires
        d < 10,
    ensures
        digits_value(s.push(digit_char(d))) == 10 * digits_value(s) + d,
        digits_value(seq![]) == 0,
        digit_char(0) == '0' && digit_char(9) == '9',
{
    assert(s.push(digit_char(d)).drop_last() =~= s);
}

} // verus!
