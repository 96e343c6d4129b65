//! Character-level text helpers: Unicode white space, trimming, splitting into
//! words, line splitting and decimal parsing, all specified over `Seq<char>`.

use vstd::prelude::*;

verus! {

/// The Unicode `White_Space` property, which `char::is_whitespace` tests.
pub open spec fn is_white_space(c: char) -> bool {
    let u = c as u32;
    ||| 0x9 <= u <= 0xd
    ||| u == 0x20
    ||| u == 0x85
    ||| u == 0xa0
    ||| u == 0x1680
    ||| 0x2000 <= u <= 0x200a
    ||| u == 0x2028
    ||| u == 0x2029
    ||| u == 0x202f
    ||| u == 0x205f
    ||| u == 0x3000
}

/// Tests the Unicode `White_Space` property (what `char::is_whitespace`
/// tests).
fn char_is_whitespace(c: char) -> (r: bool)
    ensures
        r == is_white_space(c),
{
    let u = c as u32;
    (0x9 <= u && u <= 0xd) || u == 0x20 || u == 0x85 || u == 0xa0 || u == 0x1680 || (0x2000 <= u
        && u <= 0x200a) || u == 0x2028 || u == 0x2029 || u == 0x202f || u == 0x205f || u == 0x3000
}

/// `String::push`: appends one character.
#[verifier::external_body]
fn string_push(s: &mut String, c: char)
    ensures
        final(s)@ == old(s)@.push(c),
{
    s.push(c)
}

/// The characters of a string slice, in order.
pub fn chars_of(s: &str) -> (v: Vec<char>)
    ensures
        v@ == s@,
{
    let mut v: Vec<char> = Vec::new();
    for c in it: s.chars()
        invariant
            v@ == it.seq().take(it.index() as int),
    {
        v.push(c);
    }
    v
}

/// A `String` holding exactly the given characters.
pub fn string_from_chars(cs: &[char]) -> (s: String)
    ensures
        s@ == cs@,
{
    let mut s = String::new();
    let mut i: usize = 0;
    while i < cs.len()
        invariant
            i <= cs.len(),
            s@ == cs@.take(i as int),
        decreases cs.len() - i,
    {
        string_push(&mut s, cs[i]);
        i = i + 1;
        assert(cs@.take(i as int) == cs@.take(i - 1).push(cs@[i - 1]));
    }
    assert(cs@.take(cs.len() as int) == cs@);
    s
}


// ---------------------------------------------------------------------------
// Trimming (`str::trim`: white space removed at both ends)
// ---------------------------------------------------------------------------

/// `s` without its leading white space.
pub open spec fn trim_start(s: Seq<char>) -> Seq<char>
    decreases s.len(),
{
    if s.len() > 0 && is_white_space(s[0]) {
        trim_start(s.drop_first())
    } else {
        s
    }
}

/// `s` without its trailing white space.
pub open spec fn trim_end(s: Seq<char>) -> Seq<char>
    decreases s.len(),
{
    if s.len() > 0 && is_white_space(s.last()) {
        trim_end(s.drop_last())
    } else {
        s
    }
}

/// `s` without white space at either end.
pub open spec fn trim(s: Seq<char>) -> Seq<char> {
    trim_end(trim_start(s))
}

/// The bounds `(start, end)` of the trimmed part of `s`.
pub fn trim_bounds(s: &[char]) -> (r: (usize, usize))
    ensures
        r.0 <= r.1 <= s@.len(),
        trim(s@) == s@.subrange(r.0 as int, r.1 as int),
{
    let n = s.len();
    let mut start: usize = 0;
    assert(s@.skip(0) == s@);
    while start < n && char_is_whitespace(s[start])
        invariant
            start <= n == s@.len(),
            trim_start(s@) == trim_start(s@.skip(start as int)),
        decreases n - start,
    {
        assert(s@.skip(start as int).drop_first() == s@.skip(start + 1));
        start = start + 1;
    }
    assert(trim_start(s@) == s@.skip(start as int));
    let mut end: usize = n;
    while end > start && char_is_whitespace(s[end - 1])
        invariant
            start <= end <= n == s@.len(),
            trim_start(s@) == s@.skip(start as int),
            trim(s@) == trim_end(s@.subrange(start as int, end as int)),
        decreases end,
    {
        assert(s@.subrange(start as int, end as int).drop_last() == s@.subrange(
            start as int,
            end - 1,
        ));
        end = end - 1;
    }
    assert(s@.skip(start as int) == s@.subrange(start as int, n as int));
    (start, end)
}

// ---------------------------------------------------------------------------
// Words (`str::split_whitespace`: maximal runs of non-white-space characters)
// ---------------------------------------------------------------------------

/// The words of `s`, left to right: the maximal runs of characters that are
/// not white space.
pub open spec fn words(s: Seq<char>) -> Seq<Seq<char>>
    decreases s.len(),
{
    if s.len() == 0 {
        Seq::empty()
    } else {
        let prev = words(s.drop_last());
        let c = s.last();
        if is_white_space(c) {
            prev
        } else if s.len() >= 2 && !is_white_space(s[s.len() - 2]) {
            prev.update(prev.len() - 1, prev.last().push(c))
        } else {
            prev.push(seq![c])
        }
    }
}

proof fn lemma_words_prepend_white_space(c: char, t: Seq<char>)
    requires
        is_white_space(c),
    ensures
        words(seq![c] + t) == words(t),
    decreases t.len(),
{
    let s = seq![c] + t;
    if t.len() == 0 {
        assert(s.drop_last() == Seq::<char>::empty());
        assert(s.last() == c);
        assert(words(s) == words(s.drop_last()));
    } else {
        assert(s.drop_last() == seq![c] + t.drop_last());
        assert(s.last() == t.last());
        lemma_words_prepend_white_space(c, t.drop_last());
        assert(words(s.drop_last()) == words(t.drop_last()));
        if t.len() >= 2 {
            assert(s[s.len() - 2] == t[t.len() - 2]);
        } else {
            assert(s[s.len() - 2] == c);
        }
    }
}

proof fn lemma_words_trim_end(s: Seq<char>)
    ensures
        words(trim_end(s)) == words(s),
    decreases s.len(),
{
    if s.len() > 0 && is_white_space(s.last()) {
        lemma_words_trim_end(s.drop_last());
    }
}

proof fn lemma_words_trim_start(s: Seq<char>)
    ensures
        words(trim_start(s)) == words(s),
    decreases s.len(),
{
    if s.len() > 0 && is_white_space(s[0]) {
        lemma_words_trim_start(s.drop_first());
        assert(s == seq![s[0]] + s.drop_first());
        lemma_words_prepend_white_space(s[0], s.drop_first());
    }
}

/// White space around a text does not change its words.
pub proof fn lemma_words_trim(s: Seq<char>)
    ensures
        words(trim(s)) == words(s),
{
    lemma_words_trim_end(trim_start(s));
    lemma_words_trim_start(s);
}

/// The views of a sequence of character vectors.
pub open spec fn char_vecs_view(v: Seq<Vec<char>>) -> Seq<Seq<char>> {
    v.map_values(|w: Vec<char>| w@)
}

/// Splits `s` into its words.
pub fn split_words(s: &[char]) -> (r: Vec<Vec<char>>)
    ensures
        char_vecs_view(r@) == words(s@),
{
    let n = s.len();
    let mut done: Vec<Vec<char>> = Vec::new();
    let mut cur: Vec<char> = Vec::new();
    let mut i: usize = 0;
    while i < n
        invariant
            i <= n == s@.len(),
            cur@.len() > 0 <==> (i > 0 && !is_white_space(s@[i - 1])),
            words(s@.take(i as int)) == if cur@.len() > 0 {
                char_vecs_view(done@).push(cur@)
            } else {
                char_vecs_view(done@)
            },
        decreases n - i,
    {
        let c = s[i];
        let ghost prefix = s@.take(i + 1);
        assert(prefix.drop_last() == s@.take(i as int));
        assert(prefix.last() == c);
        assert(i >= 1 ==> prefix[i - 1] == s@[i - 1]);
        if char_is_whitespace(c) {
            if cur.len() > 0 {
                let ghost before = done@;
                let w = cur;
                done.push(w);
                cur = Vec::new();
                assert(char_vecs_view(done@) == char_vecs_view(before).push(w@));
            }
        } else {
            let ghost was = cur@;
            cur.push(c);
            assert(was.len() == 0 ==> cur@ == seq![c]);
        }
        i = i + 1;
    }
    if cur.len() > 0 {
        let ghost before = done@;
        let ghost w = cur@;
        done.push(cur);
        assert(char_vecs_view(done@) == char_vecs_view(before).push(w));
    }
    assert(s@.take(n as int) == s@);
    done
}


// ---------------------------------------------------------------------------
// Searching (`str::find` with a single character)
// ---------------------------------------------------------------------------

/// The first position at or after `from` where `s` holds `c`.
pub open spec fn find_from(s: Seq<char>, c: char, from: int) -> Option<int>
    decreases s.len() - from,
{
    if from < 0 || from >= s.len() {
        None
    } else if s[from] == c {
        Some(from)
    } else {
        find_from(s, c, from + 1)
    }
}

/// Finds the first `c` in `s` at or after `from`.
pub fn find_char_from(s: &[char], c: char, from: usize) -> (r: Option<usize>)
    ensures
        match r {
            Some(i) => find_from(s@, c, from as int) == Some(i as int),
            None => find_from(s@, c, from as int) is None,
        },
        r matches Some(i) ==> from <= i < s@.len() && s@[i as int] == c,
{
    let mut i = from;
    while i < s.len()
        invariant
            from <= i,
            find_from(s@, c, from as int) == find_from(s@, c, i as int),
        decreases s.len() - i,
    {
        if s[i] == c {
            return Some(i);
        }
        i = i + 1;
    }
    None
}

// ---------------------------------------------------------------------------
// Decimal integers (`u16::from_str`, `u64::from_str`)
// ---------------------------------------------------------------------------

/// An ASCII decimal digit.
pub open spec fn is_digit(c: char) -> bool {
    48 <= c as u32 <= 57
}

/// Every character of `d` is an ASCII digit.
pub open spec fn all_digits(d: Seq<char>) -> bool {
    forall|i: int| 0 <= i < d.len() ==> is_digit(#[trigger] d[i])
}

/// The number that the digits `d` spell in base ten.
pub open spec fn decimal_value(d: Seq<char>) -> nat
    decreases d.len(),
{
    if d.len() == 0 {
        0
    } else {
        decimal_value(d.drop_last()) * 10 + ((d.last() as u32) - 48) as nat
    }
}

/// The digits of an unsigned decimal: one leading `+` is allowed.
pub open spec fn unsigned_digits(s: Seq<char>) -> Seq<char> {
    if s.len() > 0 && s[0] == '+' {
        s.drop_first()
    } else {
        s
    }
}

/// What std's integer parsing gives for an unsigned type whose largest value
/// is `max`: an optional `+`, then one or more ASCII digits whose value is at
/// most `max`; anything else is an error.
pub open spec fn parse_unsigned(s: Seq<char>, max: nat) -> Option<nat> {
    let d = unsigned_digits(s);
    if d.len() > 0 && all_digits(d) && decimal_value(d) <= max {
        Some(decimal_value(d))
    } else {
        None
    }
}

/// A longer run of digits never spells a smaller number.
proof fn lemma_decimal_value_prefix(d: Seq<char>, k: int)
    requires
        0 <= k <= d.len(),
        all_digits(d),
    ensures
        decimal_value(d.take(k)) <= decimal_value(d),
    decreases d.len(),
{
    if k < d.len() {
        assert(d.drop_last().take(k) == d.take(k));
        lemma_decimal_value_prefix(d.drop_last(), k);
    } else {
        assert(d.take(k) == d);
    }
}

/// Parses an unsigned decimal whose value must not exceed `max`.
pub fn parse_decimal(s: &[char], max: u64) -> (r: Option<u64>)
    ensures
        match r {
            Some(v) => parse_unsigned(s@, max as nat) == Some(v as nat),
            None => parse_unsigned(s@, max as nat) is None,
        },
{
    let n = s.len();
    let start: usize = if n > 0 && s[0] == '+' {
        1
    } else {
        0
    };
    let ghost d = unsigned_digits(s@);
    assert(d == s@.subrange(start as int, n as int));
    if start == n {
        return None;
    }
    let mut acc: u64 = 0;
    let mut i: usize = start;
    assert(d.take(0) == Seq::<char>::empty());
    while i < n
        invariant
            start <= i <= n == s@.len(),
            d == unsigned_digits(s@),
            d == s@.subrange(start as int, n as int),
            all_digits(d.take(i - start)),
            acc as nat == decimal_value(d.take(i - start)),
            acc <= max,
        decreases n - i,
    {
        let c = s[i];
        assert(d[i - start] == c);
        let code = c as u32;
        if !(48 <= code && code <= 57) {
            assert(!is_digit(d[i - start]));
            return None;
        }
        let digit: u64 = (code - 48) as u64;
        let ghost next = d.take(i - start + 1);
        assert(next.drop_last() == d.take(i - start));
        assert(next.last() == c);
        if digit > max || acc > (max - digit) / 10 {
            assert(acc * 10 + digit > max) by (nonlinear_arith)
                requires
                    digit > max || acc > (max - digit) / 10,
            ;
            proof {
                if all_digits(d) {
                    lemma_decimal_value_prefix(d, i - start + 1);
                }
            }
            return None;
        }
        assert(acc * 10 + digit <= max) by (nonlinear_arith)
            requires
                acc <= (max - digit) / 10,
                digit <= max,
        ;
        acc = acc * 10 + digit;
        i = i + 1;
    }
    assert(d.take(n - start) == d);
    Some(acc)
}


// ---------------------------------------------------------------------------
// Lines (`par_lines` / `str::lines`: split at '\n', one trailing '\r' dropped)
// ---------------------------------------------------------------------------

/// The pieces of `s` between newlines, as `str::split('\n')` gives them: one
/// more piece than `s` has newlines.
pub open spec fn newline_pieces(s: Seq<char>) -> Seq<Seq<char>>
    decreases s.len(),
{
    if s.len() == 0 {
        seq![Seq::empty()]
    } else {
        let p = newline_pieces(s.drop_last());
        if s.last() == '\n' {
            p.push(Seq::empty())
        } else {
            p.update(p.len() - 1, p.last().push(s.last()))
        }
    }
}

/// A line without its carriage return, if it ends with one.
pub open spec fn strip_cr(l: Seq<char>) -> Seq<char> {
    if l.len() > 0 && l.last() == '\r' {
        l.drop_last()
    } else {
        l
    }
}

/// The lines of `s`: the newline pieces, without an empty last piece (a final
/// line ending is optional), each without a trailing carriage return.
pub open spec fn lines(s: Seq<char>) -> Seq<Seq<char>> {
    let p = newline_pieces(s);
    let q = if p.last().len() == 0 {
        p.drop_last()
    } else {
        p
    };
    q.map_values(|l: Seq<char>| strip_cr(l))
}

/// Drops one trailing carriage return.
fn strip_cr_in_place(v: &mut Vec<char>)
    ensures
        final(v)@ == strip_cr(old(v)@),
{
    let n = v.len();
    if n > 0 && v[n - 1] == '\r' {
        v.pop();
    }
}

/// Splits `s` into its lines.
pub fn split_lines(s: &[char]) -> (r: Vec<Vec<char>>)
    ensures
        char_vecs_view(r@) == lines(s@),
{
    let n = s.len();
    let mut done: Vec<Vec<char>> = Vec::new();
    let mut cur: Vec<char> = Vec::new();
    let ghost mut raw: Seq<Seq<char>> = Seq::empty();
    let mut i: usize = 0;
    assert(s@.take(0) == Seq::<char>::empty());
    assert(cur@ == Seq::<char>::empty());
    while i < n
        invariant
            i <= n == s@.len(),
            newline_pieces(s@.take(i as int)) == raw.push(cur@),
            char_vecs_view(done@) == raw.map_values(|l: Seq<char>| strip_cr(l)),
        decreases n - i,
    {
        let c = s[i];
        let ghost prefix = s@.take(i + 1);
        assert(prefix.drop_last() == s@.take(i as int));
        assert(prefix.last() == c);
        if c == '\n' {
            let ghost piece = cur@;
            let ghost before = done@;
            let mut line = cur;
            strip_cr_in_place(&mut line);
            done.push(line);
            cur = Vec::new();
            proof {
                raw = raw.push(piece);
                assert(char_vecs_view(done@) == char_vecs_view(before).push(strip_cr(piece)));
                assert(raw.map_values(|l: Seq<char>| strip_cr(l)) == char_vecs_view(before).push(
                    strip_cr(piece),
                ));
                assert(cur@ == Seq::<char>::empty());
            }
        } else {
            cur.push(c);
        }
        i = i + 1;
    }
    assert(s@.take(n as int) == s@);
    if cur.len() > 0 {
        let ghost piece = cur@;
        let ghost before = done@;
        strip_cr_in_place(&mut cur);
        done.push(cur);
        assert(char_vecs_view(done@) == char_vecs_view(before).push(strip_cr(piece)));
        assert(raw.push(piece).map_values(|l: Seq<char>| strip_cr(l)) == char_vecs_view(
            before,
        ).push(strip_cr(piece)));
    } else {
        assert(raw.push(cur@).drop_last() == raw);
    }
    done
}

} // verus!
