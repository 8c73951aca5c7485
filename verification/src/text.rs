//! Decimal numbers and whitespace in the text protocols: formatting
//! integers, trimming lines and parsing integers the way the standard
//! library's `str::trim` and `str::parse` do.
use vstd::prelude::*;

verus! {

broadcast use vstd::string::axiom_spec_iter;

/// The characters of a string, in order.
pub fn chars_of(s: &str) -> (r: Vec<char>)
    ensures
        r@ == s@,
{
    let mut out: Vec<char> = Vec::new();
    for c in it: s.chars()
        invariant
            out@ == it.seq().subrange(0, it.index() as int),
            it.seq() == s@,
    {
        out.push(c);
        assert(out@ =~= it.seq().subrange(0, it.index() + 1));
    }
    out
}

// ─── Formatting ──────────────────────────────────────────────────────────

/// The ASCII digit of `d` (0 to 9).
pub open spec fn digit_byte(d: nat) -> u8 {
    (48 + d) as u8
}

/// The decimal digits of `n`, most significant first, without leading
/// zeros (`0` is the single digit `0`).
pub open spec fn decimal_digits(n: nat) -> Seq<u8>
    decreases n,
{
    if n < 10 {
        seq![digit_byte(n)]
    } else {
        decimal_digits(n / 10).push(digit_byte(n % 10))
    }
}

/// The decimal text of a signed integer: a `-` before the digits of its
/// magnitude when it is negative.
pub open spec fn signed_decimal(v: int) -> Seq<u8> {
    if v < 0 {
        seq![45u8] + decimal_digits((-v) as nat)
    } else {
        decimal_digits(v as nat)
    }
}

/// The decimal digits of `n`.
pub fn u64_to_decimal(n: u64) -> (r: Vec<u8>)
    ensures
        r@ == decimal_digits(n as nat),
    decreases n,
{
    if n < 10 {
        let mut v: Vec<u8> = Vec::new();
        v.push(48u8 + n as u8);
        v
    } else {
        let mut v = u64_to_decimal(n / 10);
        v.push(48u8 + (n % 10) as u8);
        v
    }
}

/// The decimal text of `v` followed by `|`, as a result column is written.
pub fn i64_to_str_with_pipe(v: i64) -> (r: Vec<u8>)
    ensures
        r@ == signed_decimal(v as int).push(124u8),
{
    let mut out: Vec<u8> = Vec::new();
    if v < 0 {
        out.push(45u8);
        let magnitude: u64 = if v == i64::MIN { 9223372036854775808u64 } else { (-v) as u64 };
        let digits = u64_to_decimal(magnitude);
        out.append(&mut digits.clone());
        assert(out@ =~= seq![45u8] + decimal_digits((-(v as int)) as nat));
    } else {
        out = u64_to_decimal(v as u64);
    }
    out.push(124u8);
    out
}

// ─── Whitespace ──────────────────────────────────────────────────────────

/// The characters with the Unicode `White_Space` property, which
/// `char::is_whitespace` and `str::trim` go by.
pub open spec fn is_white_space(c: char) -> bool {
    let u = c as u32;
    ||| (9 <= u && u <= 13)
    ||| u == 32
    ||| u == 0x85
    ||| u == 0xA0
    ||| u == 0x1680
    ||| (0x2000 <= u && u <= 0x200A)
    ||| u == 0x2028
    ||| u == 0x2029
    ||| u == 0x202F
    ||| u == 0x205F
    ||| u == 0x3000
}

pub fn is_white_space_exec(c: char) -> (r: bool)
    ensures
        r == is_white_space(c),
{
    let u = c as u32;
    (9 <= u && u <= 13) || u == 32 || u == 0x85 || u == 0xA0 || u == 0x1680 || (0x2000 <= u && u
        <= 0x200A) || u == 0x2028 || u == 0x2029 || u == 0x202F || u == 0x205F || u == 0x3000
}

/// `s` without its leading white space.
pub open spec fn trim_start(s: Seq<char>) -> Seq<char>
    decreases s.len(),
{
    if s.len() > 0 && is_white_space(s[0]) {
        trim_start(s.drop_first())
    } else {
        s
    }
}

/// `s` without its trailing white space.
pub open spec fn trim_end(s: Seq<char>) -> Seq<char>
    decreases s.len(),
{
    if s.len() > 0 && is_white_space(s.last()) {
        trim_end(s.drop_last())
    } else {
        s
    }
}

/// `s` without leading and trailing white space.
pub open spec fn trimmed(s: Seq<char>) -> Seq<char> {
    trim_end(trim_start(s))
}

proof fn lemma_trim_start_from(s: Seq<char>, i: int)
    requires
        0 <= i <= s.len(),
        forall|k: int| 0 <= k < i ==> is_white_space(#[trigger] s[k]),
    ensures
        trim_start(s) == trim_start(s.subrange(i, s.len() as int)),
    decreases i,
{
    if i > 0 {
        assert(s.drop_first().subrange(i - 1, s.drop_first().len() as int) =~= s.subrange(i, s.len() as int));
        lemma_trim_start_from(s.drop_first(), i - 1);
    } else {
        assert(s.subrange(0, s.len() as int) =~= s);
    }
}

proof fn lemma_trim_end_to(s: Seq<char>, j: int)
    requires
        0 <= j <= s.len(),
        forall|k: int| j <= k < s.len() ==> is_white_space(#[trigger] s[k]),
    ensures
        trim_end(s) == trim_end(s.subrange(0, j)),
    decreases s.len() - j,
{
    if j < s.len() {
        assert(s.drop_last().subrange(0, j) =~= s.subrange(0, j));
        lemma_trim_end_to(s.drop_last(), j);
    } else {
        assert(s.subrange(0, j) =~= s);
    }
}

/// The bounds `(start, end)` of `s` with its surrounding white space
/// removed.
pub fn trim_bounds(s: &Vec<char>) -> (r: (usize, usize))
    ensures
        r.0 <= r.1 <= s@.len(),
        s@.subrange(r.0 as int, r.1 as int) == trimmed(s@),
{
    let mut i: usize = 0;
    while i < s.len() && is_white_space_exec(s[i])
        invariant
            i <= s@.len(),
            forall|k: int| 0 <= k < i ==> is_white_space(#[trigger] s@[k]),
        decreases s.len() - i,
    {
        i += 1;
    }
    let ghost rest = s@.subrange(i as int, s@.len() as int);
    proof {
        lemma_trim_start_from(s@, i as int);
        assert(trim_start(rest) == rest);
    }
    let mut j: usize = s.len();
    while j > i && is_white_space_exec(s[j - 1])
        invariant
            i <= j <= s@.len(),
            forall|k: int| j <= k < s@.len() ==> is_white_space(#[trigger] s@[k]),
        decreases j,
    {
        j -= 1;
    }
    proof {
        let r = s@.subrange(i as int, j as int);
        assert forall|k: int| (j - i) <= k < rest.len() implies is_white_space(#[trigger] rest[k]) by {
            assert(rest[k] == s@[k + i]);
        }
        lemma_trim_end_to(rest, (j - i) as int);
        assert(rest.subrange(0, (j - i) as int) =~= r);
    }
    (i, j)
}

// ─── Words ───────────────────────────────────────────────────────────────

/// The first position at or after `i` that is not white space.
pub open spec fn skip_white(s: Seq<char>, i: int) -> int
    decreases s.len() - i,
{
    if 0 <= i < s.len() && is_white_space(s[i]) {
        skip_white(s, i + 1)
    } else {
        i
    }
}

/// The first position at or after `i` that is white space (or the end).
pub open spec fn word_end(s: Seq<char>, i: int) -> int
    decreases s.len() - i,
{
    if 0 <= i < s.len() && !is_white_space(s[i]) {
        word_end(s, i + 1)
    } else {
        i
    }
}

pub proof fn lemma_skip_white(s: Seq<char>, i: int)
    ensures
        skip_white(s, i) >= i,
        0 <= i <= s.len() ==> skip_white(s, i) <= s.len(),
        0 <= i <= s.len() ==> forall|k: int| i <= k < skip_white(s, i) ==> is_white_space(#[trigger] s[k]),
        0 <= i <= s.len() && skip_white(s, i) < s.len() ==> !is_white_space(s[skip_white(s, i)]),
    decreases s.len() - i,
{
    if 0 <= i < s.len() && is_white_space(s[i]) {
        lemma_skip_white(s, i + 1);
    }
}

pub proof fn lemma_word_end(s: Seq<char>, i: int)
    ensures
        word_end(s, i) >= i,
        0 <= i <= s.len() ==> word_end(s, i) <= s.len(),
        0 <= i <= s.len() ==> forall|k: int| i <= k < word_end(s, i) ==> !is_white_space(#[trigger] s[k]),
        0 <= i <= s.len() && word_end(s, i) < s.len() ==> is_white_space(s[word_end(s, i)]),
        0 <= i < s.len() && !is_white_space(s[i]) ==> word_end(s, i) > i,
    decreases s.len() - i,
{
    if 0 <= i < s.len() && !is_white_space(s[i]) {
        lemma_word_end(s, i + 1);
    }
}

/// The words of `s[i..]`: its maximal runs of characters that are not
/// white space, in order, as `str::split_whitespace` yields them.
pub open spec fn words_from(s: Seq<char>, i: int) -> Seq<Seq<char>>
    decreases s.len() - i,
{
    let a = skip_white(s, i);
    if 0 <= i && i <= s.len() && a < s.len() {
        let b = word_end(s, a);
        proof {
            lemma_skip_white(s, i);
            lemma_word_end(s, a);
        }
        seq![s.subrange(a, b)] + words_from(s, b)
    } else {
        Seq::empty()
    }
}

/// The words of `s`.
pub open spec fn words(s: Seq<char>) -> Seq<Seq<char>> {
    words_from(s, 0)
}

/// The words of a line, as `line.split_whitespace()` yields them.
pub fn split_whitespace(line: &str) -> (r: Vec<String>)
    ensures
        r@.map_values(|w: String| w@) == words(line@),
{
    let cs = chars_of(line);
    let n = cs.len();
    let mut out: Vec<String> = Vec::new();
    let mut i: usize = 0;
    proof { assert(words(line@) == Seq::<Seq<char>>::empty() + words_from(line@, 0)); }
    while i < n
        invariant
            cs@ == line@,
            n == cs@.len(),
            i <= n,
            out@.map_values(|w: String| w@) + words_from(cs@, i as int) == words(line@),
        decreases n - i,
    {
        let ghost before = out@.map_values(|w: String| w@);
        let mut a = i;
        while a < n && is_white_space_exec(cs[a])
            invariant
                i <= a <= n,
                n == cs@.len(),
                skip_white(cs@, i as int) == skip_white(cs@, a as int),
            decreases n - a,
        {
            a += 1;
        }
        if a == n {
            proof {
                assert(words_from(cs@, i as int) =~= Seq::<Seq<char>>::empty());
                assert(out@.map_values(|w: String| w@) =~= before);
            }
            i = n;
            assert(words_from(cs@, n as int) =~= Seq::<Seq<char>>::empty());
        } else {
            let mut b = a;
            while b < n && !is_white_space_exec(cs[b])
                invariant
                    a <= b <= n,
                    n == cs@.len(),
                    word_end(cs@, a as int) == word_end(cs@, b as int),
                decreases n - b,
            {
                b += 1;
            }
            let piece = line.substring_char(a, b);
            let w = piece.to_string();
            proof {
                lemma_skip_white(cs@, i as int);
                lemma_word_end(cs@, a as int);
                vstd::string::to_string_from_display_ensures_for_str(piece, w);
            }
            out.push(w);
            proof {
                assert(out@.map_values(|w: String| w@) =~= before.push(cs@.subrange(a as int, b as int)));
                assert(words_from(cs@, i as int) == seq![cs@.subrange(a as int, b as int)] + words_from(cs@, b as int));
                assert(before.push(cs@.subrange(a as int, b as int)) + words_from(cs@, b as int) =~= before + words_from(cs@, i as int));
            }
            i = b;
        }
    }
    proof {
        assert(words_from(cs@, n as int) =~= Seq::<Seq<char>>::empty());
        assert(out@.map_values(|w: String| w@) + Seq::<Seq<char>>::empty() =~= out@.map_values(|w: String| w@));
    }
    out
}

/// Whether two strings hold the same characters.
pub fn str_eq(a: &str, b: &str) -> (r: bool)
    ensures
        r == (a@ == b@),
{
    let x = chars_of(a);
    let y = chars_of(b);
    if x.len() != y.len() {
        return false;
    }
    let mut i: usize = 0;
    while i < x.len()
        invariant
            x@ == a@,
            y@ == b@,
            x@.len() == y@.len(),
            i <= x@.len(),
            forall|k: int| 0 <= k < i ==> x@[k] == y@[k],
        decreases x.len() - i,
    {
        if x[i] != y[i] {
            assert(x@[i as int] != y@[i as int]);
            return false;
        }
        i += 1;
    }
    assert(x@ =~= y@);
    true
}

// ─── Case ────────────────────────────────────────────────────────────────

/// The lowercase form of a string, as `str::to_lowercase` maps it by
/// Unicode's case tables.
pub uninterp spec fn lowercase(s: Seq<char>) -> Seq<char>;

/// The uppercase form of a string, as `str::to_uppercase` maps it by
/// Unicode's case tables.
pub uninterp spec fn uppercase(s: Seq<char>) -> Seq<char>;

/// Calls `str::to_lowercase`; its result is named, not described: it
/// depends on the string alone.
#[verifier::external_body]
pub(crate) fn to_lowercase(s: &str) -> (r: String)
    ensures
        r@ == lowercase(s@),
{
    s.to_lowercase()
}

/// Calls `str::to_uppercase`; its result is named, not described: it
/// depends on the string alone.
#[verifier::external_body]
pub(crate) fn to_uppercase(s: &str) -> (r: String)
    ensures
        r@ == uppercase(s@),
{
    s.to_uppercase()
}

// ─── Fields separated by `|` ─────────────────────────────────────────────

/// `s` without its trailing `|` characters.
pub open spec fn strip_bars(s: Seq<char>) -> Seq<char>
    decreases s.len(),
{
    if s.len() > 0 && s.last() == '|' {
        strip_bars(s.drop_last())
    } else {
        s
    }
}

/// The pieces of `s[i..]` between `|` characters, empty pieces included,
/// as `str::split('|')` yields them.
pub open spec fn pieces_from(s: Seq<char>, i: int) -> Seq<Seq<char>>
    decreases s.len() - i,
{
    if 0 <= i && i <= s.len() {
        let j = bar_at_or_after(s, i);
        if j < s.len() {
            proof {
                lemma_bar_at_or_after(s, i);
            }
            seq![s.subrange(i, j)] + pieces_from(s, j + 1)
        } else {
            seq![s.subrange(i, s.len() as int)]
        }
    } else {
        Seq::empty()
    }
}

/// The first `|` at or after `i`, or the end.
pub open spec fn bar_at_or_after(s: Seq<char>, i: int) -> int
    decreases s.len() - i,
{
    if 0 <= i < s.len() && s[i] != '|' {
        bar_at_or_after(s, i + 1)
    } else {
        i
    }
}

pub proof fn lemma_bar_at_or_after(s: Seq<char>, i: int)
    requires
        0 <= i <= s.len(),
    ensures
        i <= bar_at_or_after(s, i) <= s.len(),
        forall|k: int| i <= k < bar_at_or_after(s, i) ==> #[trigger] s[k] != '|',
        bar_at_or_after(s, i) < s.len() ==> s[bar_at_or_after(s, i)] == '|',
    decreases s.len() - i,
{
    if i < s.len() && s[i] != '|' {
        lemma_bar_at_or_after(s, i + 1);
    }
}

/// The fields of a line of a table or schema file: the pieces between
/// `|` of the line trimmed of white space and of trailing `|`.
pub open spec fn fields_of(line: Seq<char>) -> Seq<Seq<char>> {
    pieces_from(strip_bars(trimmed(line)), 0)
}

/// The fields of a line, as
/// `line.trim().trim_end_matches('|').split('|')` yields them.
pub fn split_fields(line: &str) -> (r: Vec<String>)
    ensures
        r@.map_values(|w: String| w@) == fields_of(line@),
{
    let cs = chars_of(line);
    let (a, b0) = trim_bounds(&cs);
    let mut b = b0;
    proof {
        assert(strip_bars(cs@.subrange(a as int, b as int)) == strip_bars(trimmed(line@)));
    }
    while b > a && cs[b - 1] == '|'
        invariant
            a <= b <= b0 <= cs@.len(),
            cs@ == line@,
            strip_bars(cs@.subrange(a as int, b as int)) == strip_bars(trimmed(line@)),
        decreases b,
    {
        assert(cs@.subrange(a as int, b as int).drop_last() =~= cs@.subrange(a as int, b - 1));
        b -= 1;
    }
    let ghost t = cs@.subrange(a as int, b as int);
    proof {
        assert(strip_bars(t) == t);
    }
    let mut out: Vec<String> = Vec::new();
    let mut i: usize = a;
    let mut done = false;
    while !done
        invariant
            a <= i <= b,
            b <= cs@.len(),
            cs@ == line@,
            t == cs@.subrange(a as int, b as int),
            strip_bars(t) == t,
            t == strip_bars(trimmed(line@)),
            !done ==> out@.map_values(|w: String| w@) + pieces_from(t, i - a) == fields_of(line@),
            done ==> out@.map_values(|w: String| w@) == fields_of(line@),
        decreases b - i + (if done { 0int } else { 1int }),
    {
        let mut j = i;
        while j < b && cs[j] != '|'
            invariant
                a <= i <= j <= b,
                b <= cs@.len(),
                t == cs@.subrange(a as int, b as int),
                bar_at_or_after(t, i - a) == bar_at_or_after(t, j - a),
            decreases b - j,
        {
            assert(t[j - a] == cs@[j as int]);
            j += 1;
        }
        let ghost before = out@.map_values(|w: String| w@);
        proof {
            lemma_bar_at_or_after(t, (i - a) as int);
            if j < b {
                assert(t[j - a] == cs@[j as int]);
            }
        }
        let piece = line.substring_char(i, j);
        let w = piece.to_string();
        proof {
            vstd::string::to_string_from_display_ensures_for_str(piece, w);
            assert(w@ == t.subrange(i - a, j - a));
        }
        out.push(w);
        proof {
            assert(out@.map_values(|w: String| w@) =~= before.push(t.subrange(i - a, j - a)));
        }
        if j < b {
            proof {
                assert(pieces_from(t, i - a) == seq![t.subrange(i - a, j - a)] + pieces_from(t, j + 1 - a));
                assert(before.push(t.subrange(i - a, j - a)) + pieces_from(t, j + 1 - a) =~= before + pieces_from(t, i - a));
            }
            i = j + 1;
        } else {
            proof {
                assert(pieces_from(t, i - a) == seq![t.subrange(i - a, t.len() as int)]);
                assert(before.push(t.subrange(i - a, j - a)) =~= before + pieces_from(t, i - a));
            }
            done = true;
        }
    }
    out
}

// ─── Parsing ─────────────────────────────────────────────────────────────

pub open spec fn is_digit(c: char) -> bool {
    '0' <= c && c <= '9'
}

/// Every character is a decimal digit.
pub open spec fn all_digits(d: Seq<char>) -> bool {
    forall|k: int| 0 <= k < d.len() ==> is_digit(#[trigger] d[k])
}

/// The value of a run of decimal digits.
pub open spec fn digits_value(d: Seq<char>) -> nat
    decreases d.len(),
{
    if d.len() == 0 {
        0
    } else {
        digits_value(d.drop_last()) * 10 + ((d.last() as u32) - 48) as nat
    }
}

/// An unsigned integer as `str::parse` reads one: an optional `+`, then
/// one or more decimal digits and nothing else, of a value at most `max`.
pub open spec fn parse_unsigned(s: Seq<char>, max: nat) -> Option<nat> {
    let d = if s.len() > 0 && s[0] == '+' { s.drop_first() } else { s };
    if d.len() > 0 && all_digits(d) && digits_value(d) <= max {
        Some(digits_value(d))
    } else {
        None
    }
}

/// A signed integer as `str::parse` reads one: an optional `+` or `-`,
/// then one or more decimal digits and nothing else, within `min..=max`.
pub open spec fn parse_signed(s: Seq<char>, min: int, max: int) -> Option<int> {
    let neg = s.len() > 0 && s[0] == '-';
    let d = if s.len() > 0 && (s[0] == '+' || s[0] == '-') { s.drop_first() } else { s };
    if d.len() > 0 && all_digits(d) {
        let v: int = if neg { -(digits_value(d) as int) } else { digits_value(d) as int };
        if min <= v && v <= max { Some(v) } else { None }
    } else {
        None
    }
}

proof fn lemma_digits_value_push(d: Seq<char>, c: char)
    ensures
        digits_value(d.push(c)) == digits_value(d) * 10 + ((c as u32) - 48) as nat,
{
    assert(d.push(c).drop_last() =~= d);
}

/// The value of the digits of `s[from..to]`, if they are all digits and
/// the value is at most `max`.
fn digits_up_to(s: &Vec<char>, from: usize, to: usize, max: u64) -> (r: Option<u64>)
    requires
        from <= to <= s@.len(),
    ensures
        ({
            let d = s@.subrange(from as int, to as int);
            let ok = all_digits(d) && digits_value(d) <= max;
            &&& (r is Some <==> ok)
            &&& (r matches Some(v) ==> v == digits_value(d))
        }),
{
    let ghost d = s@.subrange(from as int, to as int);
    let mut acc: u64 = 0;
    let mut i: usize = from;
    while i < to
        invariant
            from <= i <= to <= s@.len(),
            d == s@.subrange(from as int, to as int),
            forall|k: int| from <= k < i ==> is_digit(#[trigger] s@[k]),
            acc == digits_value(s@.subrange(from as int, i as int)),
            acc <= max,
        decreases to - i,
    {
        let c = s[i];
        proof {
            assert(s@.subrange(from as int, i + 1) =~= s@.subrange(from as int, i as int).push(c));
            lemma_digits_value_push(s@.subrange(from as int, i as int), c);
            assert(d[i - from] == c);
        }
        if !('0' <= c && c <= '9') {
            return None;
        }
        let next: u128 = acc as u128 * 10 + (c as u32 - 48) as u128;
        if next > max as u128 {
            proof {
                if all_digits(d) {
                    lemma_digits_prefix_bound(d, (i + 1 - from) as int);
                    assert(d.subrange(0, (i + 1 - from) as int) =~= s@.subrange(from as int, i + 1));
                }
            }
            return None;
        }
        acc = next as u64;
        i += 1;
    }
    proof {
        assert(s@.subrange(from as int, i as int) =~= d);
        assert forall|k: int| 0 <= k < d.len() implies is_digit(#[trigger] d[k]) by {
            assert(d[k] == s@[k + from]);
        }
        assert(all_digits(d));
    }
    Some(acc)
}

/// A prefix of a run of digits has a value at most that of the run.
proof fn lemma_digits_prefix_bound(d: Seq<char>, i: int)
    requires
        0 <= i <= d.len(),
        all_digits(d),
    ensures
        digits_value(d.subrange(0, i)) <= digits_value(d),
    decreases d.len() - i,
{
    if i < d.len() {
        lemma_digits_prefix_bound(d, i + 1);
        let p = d.subrange(0, i);
        assert(d.subrange(0, i + 1) =~= p.push(d[i]));
        lemma_digits_value_push(p, d[i]);
    } else {
        assert(d.subrange(0, i) =~= d);
    }
}

/// Parses `s[from..to]` as an unsigned integer of at most `max`.
fn parse_unsigned_range(s: &Vec<char>, from: usize, to: usize, max: u64) -> (r: Option<u64>)
    requires
        from <= to <= s@.len(),
    ensures
        match parse_unsigned(s@.subrange(from as int, to as int), max as nat) {
            Some(v) => r == Some(v as u64),
            None => r is None,
        },
{
    let ghost t = s@.subrange(from as int, to as int);
    let mut start = from;
    if from < to && s[from] == '+' {
        start = from + 1;
        assert(t.drop_first() =~= s@.subrange(start as int, to as int));
    } else {
        assert(t =~= s@.subrange(start as int, to as int));
    }
    if start == to {
        return None;
    }
    let r = digits_up_to(s, start, to, max);
    proof {
        let d = if t.len() > 0 && t[0] == '+' { t.drop_first() } else { t };
        assert(d =~= s@.subrange(start as int, to as int));
        assert(d.len() > 0);
    }
    r
}

/// Parses a line as an unsigned 64-bit integer after trimming its white
/// space, as `line.trim().parse::<u64>()` does.
pub fn parse_trimmed_u64(line: &str) -> (r: Option<u64>)
    ensures
        match parse_unsigned(trimmed(line@), u64::MAX as nat) {
            Some(v) => r == Some(v as u64),
            None => r is None,
        },
{
    let cs = chars_of(line);
    let (a, b) = trim_bounds(&cs);
    parse_unsigned_range(&cs, a, b, u64::MAX)
}

/// Parses a line as an unsigned `usize` after trimming its white space,
/// as `line.trim().parse::<usize>()` does.
pub fn parse_trimmed_usize(line: &str) -> (r: Option<usize>)
    ensures
        match parse_unsigned(trimmed(line@), usize::MAX as nat) {
            Some(v) => r == Some(v as usize),
            None => r is None,
        },
{
    let cs = chars_of(line);
    let (a, b) = trim_bounds(&cs);
    match parse_unsigned_range(&cs, a, b, usize::MAX as u64) {
        Some(v) => Some(v as usize),
        None => None,
    }
}

/// Parses a whole string as an unsigned 64-bit integer, as
/// `s.parse::<u64>()` does.
pub fn parse_u64(s: &str) -> (r: Option<u64>)
    ensures
        match parse_unsigned(s@, u64::MAX as nat) {
            Some(v) => r == Some(v as u64),
            None => r is None,
        },
{
    let cs = chars_of(s);
    assert(cs@.subrange(0, cs@.len() as int) =~= cs@);
    parse_unsigned_range(&cs, 0, cs.len(), u64::MAX)
}

/// Parses a whole string as a signed integer within `min..=max` (the
/// range of `i32` or `i64`), as `s.parse::<i32>()` or `s.parse::<i64>()`
/// does.
pub fn parse_i64_within(s: &str, min: i64, max: i64) -> (r: Option<i64>)
    requires
        min < 0 < max,
    ensures
        match parse_signed(s@, min as int, max as int) {
            Some(v) => r == Some(v as i64),
            None => r is None,
        },
{
    let cs = chars_of(s);
    let n = cs.len();
    let neg = n > 0 && cs[0] == '-';
    let start: usize = if n > 0 && (cs[0] == '+' || cs[0] == '-') { 1 } else { 0 };
    let ghost d = if cs@.len() > 0 && (cs@[0] == '+' || cs@[0] == '-') { cs@.drop_first() } else { cs@ };
    proof {
        assert(d =~= cs@.subrange(start as int, n as int));
    }
    if start == n {
        return None;
    }
    // A negative number may reach |min|, one more than `max`.
    let limit: u64 = if neg { (-(min + 1)) as u64 + 1 } else { max as u64 };
    match digits_up_to(&cs, start, n, limit) {
        Some(m) => {
            if neg {
                let v: i128 = -(m as i128);
                Some(v as i64)
            } else {
                Some(m as i64)
            }
        },
        None => None,
    }
}

// ─── Formatting and parsing agree ────────────────────────────────────────

/// Bytes of ASCII text as characters.
pub open spec fn ascii_chars(b: Seq<u8>) -> Seq<char> {
    b.map_values(|x: u8| x as char)
}

proof fn lemma_decimal_digits(n: nat)
    ensures
        decimal_digits(n).len() > 0,
        all_digits(ascii_chars(decimal_digits(n))),
        digits_value(ascii_chars(decimal_digits(n))) == n,
    decreases n,
{
    let a = ascii_chars(decimal_digits(n));
    if n < 10 {
        let c = digit_byte(n) as char;
        assert(a =~= seq![c]);
        assert(a.drop_last() =~= Seq::<char>::empty());
        assert(digits_value(Seq::<char>::empty()) == 0);
        assert((c as u32) == 48 + n);
        assert(digits_value(a) == digits_value(a.drop_last()) * 10 + ((c as u32) - 48) as nat);
    } else {
        lemma_decimal_digits(n / 10);
        let p = ascii_chars(decimal_digits(n / 10));
        let c = digit_byte(n % 10) as char;
        assert(a =~= p.push(c));
        lemma_digits_value_push(p, c);
        assert((c as u32) == 48 + n % 10);
        assert(n == (n / 10) * 10 + n % 10);
        assert forall|k: int| 0 <= k < a.len() implies is_digit(#[trigger] a[k]) by {
            if k < p.len() {
                assert(a[k] == p[k]);
            }
        }
    }
}

/// Reading back the decimal digits of a number gives the number.
pub proof fn lemma_parse_decimal(n: nat, max: nat)
    requires
        n <= max,
    ensures
        parse_unsigned(ascii_chars(decimal_digits(n)), max) == Some(n),
{
    lemma_decimal_digits(n);
    let a = ascii_chars(decimal_digits(n));
    assert(is_digit(a[0]));
}

/// A line of decimal digits ended by a newline, as the disk simulator
/// answers, trims to the digits; so a reply parses back to the number
/// that was written.
pub proof fn lemma_reply_roundtrip(n: nat, max: nat)
    requires
        n <= max,
    ensures
        trimmed(ascii_chars(decimal_digits(n)).push('\n')) == ascii_chars(decimal_digits(n)),
        parse_unsigned(trimmed(ascii_chars(decimal_digits(n)).push('\n')), max) == Some(n),
{
    lemma_decimal_digits(n);
    let a = ascii_chars(decimal_digits(n));
    let line = a.push('\n');
    assert(is_digit(line[0]));
    assert(trim_start(line) == line);
    assert(line.drop_last() =~= a);
    assert(is_digit(a.last()));
    assert(trim_end(a) == a);
    lemma_parse_decimal(n, max);
}

} // verus!
