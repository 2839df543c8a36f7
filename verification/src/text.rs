//! The text that the sequencer reads and writes: decimal numbers, trimmed input and
//! slash-separated addresses.

use vstd::prelude::*;
use vstd::string::*;

verus! {

/// The character of a decimal digit.
pub open spec fn digit_char(d: nat) -> char {
    (48 + d) as char
}

/// The digits of a natural number, most significant first.
pub open spec fn digits(n: nat) -> Seq<char>
    decreases n,
{
    if n < 10 {
        seq![digit_char(n)]
    } else {
        digits(n / 10).push(digit_char(n % 10))
    }
}

/// The decimal text of an integer.
pub open spec fn decimal(n: int) -> Seq<char> {
    if n < 0 {
        seq!['-'] + digits((-n) as nat)
    } else {
        digits(n as nat)
    }
}

/// Whether a character is a decimal digit.
pub open spec fn is_digit(c: char) -> bool {
    '0' <= c <= '9'
}

/// Whether a text is made of digits alone.
pub open spec fn all_digits(s: Seq<char>) -> bool {
    forall|i: int| 0 <= i < s.len() ==> is_digit(#[trigger] s[i])
}

/// The number that a run of digits stands for.
pub open spec fn digits_value(s: Seq<char>) -> nat
    decreases s.len(),
{
    if s.len() == 0 {
        0
    } else {
        10 * digits_value(s.drop_last()) + (s.last() as nat - 48) as nat
    }
}

/// The number that a text stands for: digits alone, at least one of them, with a plus
/// sign allowed in front.
pub open spec fn unsigned_value(s: Seq<char>) -> Option<nat> {
    let body = if s.len() > 0 && s[0] == '+' {
        s.skip(1)
    } else {
        s
    };
    if body.len() > 0 && all_digits(body) {
        Some(digits_value(body))
    } else {
        None
    }
}

/// Appends a text.
pub fn push_str(s: &mut String, t: &str)
    ensures
        final(s)@ == old(s)@ + t@,
{
    s.append(t);
}

/// Appends a single decimal digit.
fn push_digit(s: &mut String, d: u64)
    requires
        d < 10,
    ensures
        final(s)@ == old(s)@.push(digit_char(d as nat)),
{
    proof {
        reveal_strlit("0");
        reveal_strlit("1");
        reveal_strlit("2");
        reveal_strlit("3");
        reveal_strlit("4");
        reveal_strlit("5");
        reveal_strlit("6");
        reveal_strlit("7");
        reveal_strlit("8");
        reveal_strlit("9");
    }
    let t = match d {
        0 => "0",
        1 => "1",
        2 => "2",
        3 => "3",
        4 => "4",
        5 => "5",
        6 => "6",
        7 => "7",
        8 => "8",
        _ => "9",
    };
    assert(t@ =~= seq![digit_char(d as nat)]);
    s.append(t);
    assert(s@ =~= old(s)@.push(digit_char(d as nat)));
}

/// Appends the digits of a number.
pub fn push_digits(s: &mut String, n: u64)
    ensures
        final(s)@ == old(s)@ + digits(n as nat),
    decreases n,
{
    if n >= 10 {
        push_digits(s, n / 10);
    }
    push_digit(s, n % 10);
    assert(s@ =~= old(s)@ + digits(n as nat));
}

/// Appends the decimal text of an integer.
pub fn push_decimal(s: &mut String, n: i64)
    ensures
        final(s)@ == old(s)@ + decimal(n as int),
{
    if n < 0 {
        proof {
            reveal_strlit("-");
            assert("-"@ =~= seq!['-']);
        }
        s.append("-");
        push_digits(s, (-(n as i128)) as u64);
        assert(s@ =~= old(s)@ + decimal(n as int));
    } else {
        push_digits(s, n as u64);
    }
}

/// The characters of a text.
pub fn to_chars(s: &str) -> (r: Vec<char>)
    ensures
        r@ == s@,
{
    let mut r: Vec<char> = Vec::new();
    for c in it: s.chars()
        invariant
            it.seq() == s@,
            r@ == s@.take(it.index() as int),
    {
        r.push(c);
        assert(s@.take(it.index() + 1) =~= s@.take(it.index() as int).push(c));
    }
    assert(s@.take(s@.len() as int) =~= s@);
    r
}

/// Whether two runs of characters are the same.
pub fn same_chars(a: &Vec<char>, b: &Vec<char>) -> (r: bool)
    ensures
        r == (a@ == b@),
{
    if a.len() != b.len() {
        return false;
    }
    let mut i: usize = 0;
    while i < a.len()
        invariant
            i <= a@.len(),
            a@.len() == b@.len(),
            forall|j: int| 0 <= j < i ==> a@[j] == b@[j],
        decreases a@.len() - i,
    {
        if a[i] != b[i] {
            return false;
        }
        i += 1;
    }
    assert(a@ =~= b@);
    true
}

/// Whether a run of characters spells a text.
pub fn spells(a: &Vec<char>, t: &str) -> (r: bool)
    ensures
        r == (a@ == t@),
{
    same_chars(a, &to_chars(t))
}

/// The characters from `from` up to `to`.
fn part(a: &Vec<char>, from: usize, to: usize) -> (r: Vec<char>)
    requires
        from <= to <= a@.len(),
    ensures
        r@ == a@.subrange(from as int, to as int),
{
    let mut r: Vec<char> = Vec::new();
    let mut i: usize = from;
    while i < to
        invariant
            from <= i <= to <= a@.len(),
            r@ == a@.subrange(from as int, i as int),
        decreases to - i,
    {
        r.push(a[i]);
        i += 1;
        assert(r@ =~= a@.subrange(from as int, i as int));
    }
    r
}

/// Reads an unsigned number of at most `max`: digits alone, with a plus sign allowed in
/// front.
pub fn parse_unsigned(s: &Vec<char>, max: u64) -> (r: Option<u64>)
    requires
        10 * max + 9 <= u64::MAX,
    ensures
        r == match unsigned_value(s@) {
            Some(v) => if v <= max {
                Some(v as u64)
            } else {
                None
            },
            None => None,
        },
{
    let start: usize = if s.len() > 0 && s[0] == '+' {
        1
    } else {
        0
    };
    let ghost body = if s@.len() > 0 && s@[0] == '+' {
        s@.skip(1)
    } else {
        s@
    };
    assert(body =~= s@.skip(start as int));
    if start == s.len() {
        return None;
    }
    let mut v: u64 = 0;
    let mut over: bool = false;
    let mut i: usize = start;
    assert(body.take(0) =~= Seq::<char>::empty());
    while i < s.len()
        invariant
            start <= i <= s@.len(),
            start < s@.len(),
            body == s@.skip(start as int),
            unsigned_value(s@) == if all_digits(body) {
                Some(digits_value(body))
            } else {
                None
            },
            forall|j: int| 0 <= j < i - start ==> is_digit(body[j]),
            10 * max + 9 <= u64::MAX,
            !over ==> v <= max && v == digits_value(body.take(i - start)),
            over ==> digits_value(body.take(i - start)) > max,
        decreases s@.len() - i,
    {
        let c = s[i];
        assert(c == body[i - start]);
        if c < '0' || c > '9' {
            assert(!is_digit(body[i - start]));
            return None;
        }
        proof {
            assert(body.take(i + 1 - start).drop_last() =~= body.take(i - start));
            assert(body.take(i + 1 - start).last() == c);
        }
        if !over {
            let w: u64 = 10 * v + (c as u64 - 48);
            if w <= max {
                v = w;
            } else {
                over = true;
            }
        }
        i += 1;
    }
    assert(body.take(s@.len() - start) =~= body);
    if over {
        None
    } else {
        Some(v)
    }
}

/// The digits of a number are digits, and stand for it.
proof fn lemma_digits_value(n: nat)
    ensures
        digits(n).len() > 0,
        all_digits(digits(n)),
        digits_value(digits(n)) == n,
    decreases n,
{
    if n < 10 {
        assert(digits(n).drop_last() =~= Seq::<char>::empty());
        assert(digits_value(digits(n).drop_last()) == 0);
        assert(digits(n).last() == digit_char(n));
    } else {
        lemma_digits_value(n / 10);
        assert(digits(n).drop_last() =~= digits(n / 10));
        assert(digits(n).last() == digit_char(n % 10));
    }
}

/// Reading what was written gives the number back.
pub proof fn law_number_text_round_trip(n: nat)
    ensures
        unsigned_value(decimal(n as int)) == Some(n),
{
    lemma_digits_value(n);
    assert(is_digit(digits(n)[0]));
}

/// Whether Unicode counts a character as white space.
pub open spec fn is_space(c: char) -> bool {
    let n = c as int;
    ||| 9 <= n <= 13
    ||| n == 32
    ||| n == 0x85
    ||| n == 0xa0
    ||| n == 0x1680
    ||| 0x2000 <= n <= 0x200a
    ||| n == 0x2028
    ||| n == 0x2029
    ||| n == 0x202f
    ||| n == 0x205f
    ||| n == 0x3000
}

/// What `t` is of `s` when white space goes at both ends: `s` is `t` with nothing but
/// white space round it, and `t` has none at its ends.
pub open spec fn trims_to(s: Seq<char>, t: Seq<char>) -> bool {
    exists|from: int, to: int|
        #![trigger s.subrange(from, to)]
        {
            &&& 0 <= from <= to <= s.len()
            &&& t == s.subrange(from, to)
            &&& forall|i: int| 0 <= i < from || to <= i < s.len() ==> is_space(#[trigger] s[i])
            &&& t.len() > 0 ==> !is_space(t[0]) && !is_space(t.last())
        }
}

/// A text without the white space at its ends.
pub open spec fn trimmed(s: Seq<char>) -> Seq<char> {
    choose|t: Seq<char>| trims_to(s, t)
}

/// Whether a character is white space.
fn space(c: char) -> (r: bool)
    ensures
        r == is_space(c),
{
    let n: u32 = c as u32;
    9 <= n && n <= 13 || n == 32 || n == 0x85 || n == 0xa0 || n == 0x1680 || 0x2000 <= n && n
        <= 0x200a || n == 0x2028 || n == 0x2029 || n == 0x202f || n == 0x205f || n == 0x3000
}

/// Takes the white space off both ends.
pub fn trim(s: &Vec<char>) -> (r: Vec<char>)
    ensures
        r@ == trimmed(s@),
        trims_to(s@, r@),
{
    let mut from: usize = 0;
    while from < s.len() && space(s[from])
        invariant
            from <= s@.len(),
            forall|i: int| 0 <= i < from ==> is_space(#[trigger] s@[i]),
        decreases s@.len() - from,
    {
        from += 1;
    }
    let mut to: usize = s.len();
    while to > from && space(s[to - 1])
        invariant
            from <= to <= s@.len(),
            forall|i: int| to <= i < s@.len() ==> is_space(#[trigger] s@[i]),
        decreases to,
    {
        to -= 1;
    }
    let r = part(s, from, to);
    proof {
        assert(trims_to(s@, r@)) by {
            assert(r@ == s@.subrange(from as int, to as int));
        }
        law_trim_is_unique(s@, r@, trimmed(s@));
    }
    r
}

/// There is only one way to trim a text.
pub proof fn law_trim_is_unique(s: Seq<char>, t: Seq<char>, u: Seq<char>)
    requires
        trims_to(s, t),
        trims_to(s, u),
    ensures
        t == u,
{
    let (a, b) = choose|from: int, to: int|
        #![trigger s.subrange(from, to)]
        {
            &&& 0 <= from <= to <= s.len()
            &&& t == s.subrange(from, to)
            &&& forall|i: int| 0 <= i < from || to <= i < s.len() ==> is_space(#[trigger] s[i])
            &&& t.len() > 0 ==> !is_space(t[0]) && !is_space(t.last())
        };
    let (c, d) = choose|from: int, to: int|
        #![trigger s.subrange(from, to)]
        {
            &&& 0 <= from <= to <= s.len()
            &&& u == s.subrange(from, to)
            &&& forall|i: int| 0 <= i < from || to <= i < s.len() ==> is_space(#[trigger] s[i])
            &&& u.len() > 0 ==> !is_space(u[0]) && !is_space(u.last())
        };
    if t.len() > 0 {
        assert(!is_space(s[a]));
        assert(!is_space(s[b - 1]));
        assert(c <= a && b <= d);
        assert(!is_space(s[c]));
        assert(!is_space(s[d - 1]));
        assert(t =~= u);
    } else if u.len() > 0 {
        assert(!is_space(s[c]));
        assert(0 <= c < a || b <= c < s.len());
    } else {
        assert(t =~= u);
    }
}

/// The text of a number needs no trimming.
pub proof fn law_number_text_is_trim(n: nat)
    ensures
        trimmed(decimal(n as int)) == decimal(n as int),
{
    let s = decimal(n as int);
    lemma_digits_value(n);
    assert(s.subrange(0, s.len() as int) =~= s);
    assert(is_digit(s[0]) && is_digit(s[s.len() - 1]));
    assert(trims_to(s, s));
    law_trim_is_unique(s, s, trimmed(s));
}

/// The parts of a text between its slashes.
pub open spec fn segments(s: Seq<char>) -> Seq<Seq<char>>
    decreases s.len(),
{
    if s.len() == 0 {
        seq![Seq::<char>::empty()]
    } else {
        let before = segments(s.drop_last());
        if s.last() == '/' {
            before.push(Seq::<char>::empty())
        } else {
            before.drop_last().push(before.last().push(s.last()))
        }
    }
}

/// The characters of each of several runs.
pub open spec fn views(v: Seq<Vec<char>>) -> Seq<Seq<char>> {
    v.map_values(|p: Vec<char>| p@)
}

/// Cuts a text at its slashes.
pub fn split_segments(s: &Vec<char>) -> (r: Vec<Vec<char>>)
    ensures
        views(r@) == segments(s@),
{
    let mut done: Vec<Vec<char>> = Vec::new();
    let mut open: Vec<char> = Vec::new();
    let mut i: usize = 0;
    assert(s@.take(0) =~= Seq::<char>::empty());
    assert(views(done@).push(open@) =~= segments(s@.take(0)));
    while i < s.len()
        invariant
            i <= s@.len(),
            views(done@).push(open@) == segments(s@.take(i as int)),
        decreases s@.len() - i,
    {
        let c = s[i];
        let ghost before = segments(s@.take(i as int));
        proof {
            assert(s@.take(i + 1).drop_last() =~= s@.take(i as int));
            assert(before.drop_last() =~= views(done@));
        }
        if c == '/' {
            let ghost was = views(done@);
            let ghost seg = open@;
            done.push(open);
            open = Vec::new();
            assert(views(done@) =~= was.push(seg));
            assert(views(done@).push(open@) =~= before.push(Seq::<char>::empty()));
        } else {
            open.push(c);
        }
        i += 1;
    }
    assert(s@.take(s@.len() as int) =~= s@);
    let ghost was = views(done@);
    let ghost seg = open@;
    done.push(open);
    assert(views(done@) =~= was.push(seg));
    done
}

/// There is always at least one segment.
proof fn lemma_segments_nonempty(s: Seq<char>)
    ensures
        segments(s).len() > 0,
    decreases s.len(),
{
    if s.len() > 0 {
        lemma_segments_nonempty(s.drop_last());
    }
}

/// A text without slashes is one segment.
pub proof fn law_plain_text_is_one_segment(s: Seq<char>)
    requires
        !s.contains('/'),
    ensures
        segments(s) == seq![s],
    decreases s.len(),
{
    if s.len() > 0 {
        assert(s.contains(s.last()));
        assert(!s.drop_last().contains('/')) by {
            assert(forall|i: int| 0 <= i < s.len() - 1 ==> s.drop_last()[i] == s[i]);
        }
        law_plain_text_is_one_segment(s.drop_last());
        assert(s.drop_last().push(s.last()) =~= s);
        assert(segments(s) =~= seq![s]);
    } else {
        assert(s =~= Seq::<char>::empty());
    }
}

/// A slash between two texts parts their segments.
pub proof fn law_slash_parts_segments(a: Seq<char>, b: Seq<char>)
    ensures
        segments(a.push('/') + b) == segments(a) + segments(b),
    decreases b.len(),
{
    let whole = a.push('/') + b;
    lemma_segments_nonempty(b);
    if b.len() == 0 {
        assert(whole.drop_last() =~= a);
        assert(segments(whole) =~= segments(a) + segments(b));
    } else {
        law_slash_parts_segments(a, b.drop_last());
        lemma_segments_nonempty(b.drop_last());
        assert(whole.drop_last() =~= a.push('/') + b.drop_last());
        assert(segments(whole) =~= segments(a) + segments(b));
    }
}

/// Texts put together with a slash between each and the next.
pub open spec fn rejoined(parts: Seq<Seq<char>>) -> Seq<char>
    decreases parts.len(),
{
    if parts.len() == 0 {
        Seq::empty()
    } else if parts.len() == 1 {
        parts[0]
    } else {
        rejoined(parts.drop_last()).push('/') + parts.last()
    }
}

/// The segments of a text give it back, and none of them has a slash in it.
pub proof fn law_segments_give_the_text_back(s: Seq<char>)
    ensures
        rejoined(segments(s)) == s,
        segments(s).len() > 0,
        forall|i: int| 0 <= i < segments(s).len() ==> !(#[trigger] segments(s)[i]).contains('/'),
    decreases s.len(),
{
    lemma_segments_nonempty(s);
    if s.len() == 0 {
        assert(rejoined(segments(s)) =~= s);
    } else {
        let rest = s.drop_last();
        let before = segments(rest);
        let after = segments(s);
        law_segments_give_the_text_back(rest);
        if s.last() == '/' {
            assert(after.drop_last() =~= before);
            assert(rejoined(after) =~= s);
        } else {
            let last = before.last().push(s.last());
            assert(after.last() == last);
            assert(after.drop_last() =~= before.drop_last());
            assert(!last.contains('/')) by {
                assert(!before[before.len() - 1].contains('/'));
                assert forall|i: int| 0 <= i < last.len() implies last[i] != '/' by {
                    if i < before.last().len() {
                        assert(before.last().contains(before.last()[i]));
                    }
                }
            }
            assert forall|i: int| 0 <= i < after.len() implies !(#[trigger] after[i]).contains(
                '/',
            ) by {
                if i < after.len() - 1 {
                    assert(after[i] == before[i]);
                }
            }
            if before.len() == 1 {
                assert(rejoined(after) =~= s);
            } else {
                assert(rejoined(after) =~= rejoined(before).push(s.last()));
                assert(rejoined(after) =~= s);
            }
        }
    }
}

/// Each digit counts ten times what the next one does, a zero in front counts nothing, nor
/// does one plus sign, and where anything else stands in a text it is no number.
pub proof fn law_numbers_are_read_by_their_digits(s: Seq<char>, c: char)
    ensures
        unsigned_value(s) matches Some(n) ==> unsigned_value(s.push(c)) == if '0' <= c <= '9' {
            Some((10 * n + (c as nat - '0' as nat)) as nat)
        } else {
            None
        },
        '0' <= c <= '9' ==> unsigned_value(seq![c]) == Some((c as nat - '0' as nat) as nat),
        s.len() > 0 && s[0] != '+' ==> unsigned_value(seq!['+'] + s) == unsigned_value(s),
        s.len() > 0 && s[0] != '+' ==> unsigned_value(seq!['0'] + s) == unsigned_value(s),
        forall|i: int| 0 < i < s.len() && !('0' <= #[trigger] s[i] <= '9') ==> unsigned_value(s) is None,
        s.len() == 0 ==> unsigned_value(s) is None,
{
    let body = if s.len() > 0 && s[0] == '+' {
        s.skip(1)
    } else {
        s
    };
    let longer = s.push(c);
    if unsigned_value(s) is Some {
        let rest = if longer[0] == '+' {
            longer.skip(1)
        } else {
            longer
        };
        assert(rest =~= body.push(c));
        assert(rest.drop_last() =~= body);
        assert(rest.last() == c);
        if is_digit(c) {
            assert(all_digits(rest));
        } else {
            assert(!is_digit(rest[rest.len() - 1]));
        }
    }
    assert(seq![c].drop_last() =~= Seq::<char>::empty());
    assert(digits_value(seq![c].drop_last()) == 0);
    assert(seq![c].last() == c);
    if s.len() > 0 && s[0] != '+' {
        assert((seq!['+'] + s).skip(1) =~= s);
        let padded = seq!['0'] + s;
        assert(forall|i: int| 0 <= i < s.len() ==> padded[i + 1] == s[i]);
        if all_digits(s) {
            assert forall|i: int| 0 <= i < padded.len() implies is_digit(#[trigger] padded[i]) by {
                if i > 0 {
                    assert(padded[i] == s[i - 1]);
                }
            }
        } else {
            let i = choose|i: int| 0 <= i < s.len() && !is_digit(#[trigger] s[i]);
            assert(!is_digit(padded[i + 1]));
        }
        lemma_leading_zero(s);
    }
    assert forall|i: int| 0 < i < s.len() && !('0' <= #[trigger] s[i] <= '9') implies unsigned_value(
        s,
    ) is None by {
        if s[0] == '+' {
            assert(body[i - 1] == s[i]);
            assert(!is_digit(body[i - 1]));
        } else {
            assert(!is_digit(body[i]));
        }
    }
}

proof fn lemma_leading_zero(s: Seq<char>)
    ensures
        digits_value(seq!['0'] + s) == digits_value(s),
    decreases s.len(),
{
    let padded = seq!['0'] + s;
    if s.len() == 0 {
        assert(padded.drop_last() =~= Seq::<char>::empty());
        assert(digits_value(padded.drop_last()) == 0);
    } else {
        lemma_leading_zero(s.drop_last());
        assert(padded.drop_last() =~= seq!['0'] + s.drop_last());
    }
}

/// The text of a number has its last digit last, and before it the text of the rest; one of
/// a single digit is that digit. A minus sign stands before the text of a number below zero.
pub proof fn law_numbers_are_written_in_tens(n: nat, d: nat)
    requires
        d < 10,
    ensures
        decimal(d as int) == seq![(48 + d) as char],
        n > 0 ==> decimal((10 * n + d) as int) == decimal(n as int).push((48 + d) as char),
        n > 0 ==> decimal(-(n as int)) == seq!['-'] + decimal(n as int),
{
    let m = 10 * n + d;
    assert(m / 10 == n && m % 10 == d);
}

/// White space is what Unicode counts as such: tab, line feed, vertical tab, form feed and
/// carriage return, the space, the next line, the no-break and the Ogham space, the eleven
/// from the en quad to the hair space, the line and the paragraph separator, the narrow, the
/// mathematical and the ideographic space, and nothing else.
pub proof fn law_white_space(c: char)
    ensures
        is_space(c) <==> seq![
            0x9int,
            0xa,
            0xb,
            0xc,
            0xd,
            0x20,
            0x85,
            0xa0,
            0x1680,
            0x2000,
            0x2001,
            0x2002,
            0x2003,
            0x2004,
            0x2005,
            0x2006,
            0x2007,
            0x2008,
            0x2009,
            0x200a,
            0x2028,
            0x2029,
            0x202f,
            0x205f,
            0x3000,
        ].contains(c as int),
{
    let all = seq![
        0x9int,
        0xa,
        0xb,
        0xc,
        0xd,
        0x20,
        0x85,
        0xa0,
        0x1680,
        0x2000,
        0x2001,
        0x2002,
        0x2003,
        0x2004,
        0x2005,
        0x2006,
        0x2007,
        0x2008,
        0x2009,
        0x200a,
        0x2028,
        0x2029,
        0x202f,
        0x205f,
        0x3000,
    ];
    let n = c as int;
    if is_space(c) {
        let i = if n <= 13 {
            n - 9
        } else if n == 0x20 {
            5
        } else if n == 0x85 {
            6
        } else if n == 0xa0 {
            7
        } else if n == 0x1680 {
            8
        } else if n <= 0x200a {
            n - 0x2000 + 9
        } else if n == 0x2028 {
            20
        } else if n == 0x2029 {
            21
        } else if n == 0x202f {
            22
        } else if n == 0x205f {
            23
        } else {
            24
        };
        assert(all[i] == n);
    }
}

/// Trimming takes off all the white space at both ends and nothing else.
pub proof fn law_white_space_goes_at_both_ends(before: Seq<char>, s: Seq<char>, after: Seq<char>)
    requires
        forall|i: int| 0 <= i < before.len() ==> is_space(#[trigger] before[i]),
        forall|i: int| 0 <= i < after.len() ==> is_space(#[trigger] after[i]),
        s.len() > 0 ==> !is_space(s[0]) && !is_space(s.last()),
    ensures
        trimmed(before + s + after) == s,
{
    let whole = before + s + after;
    let (from, to) = (before.len() as int, (before.len() + s.len()) as int);
    assert(whole.subrange(from, to) =~= s);
    assert(trims_to(whole, s));
    law_trim_is_unique(whole, s, trimmed(whole));
}

} // verus!
