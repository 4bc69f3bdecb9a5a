//! Strings as sequences of characters: comparing, trimming, numbers in decimal.

use vstd::prelude::*;

verus! {

/// The characters of `s`.
pub fn chars_of(s: &str) -> (chars: Vec<char>)
    ensures
        chars@ == s@,
{
    let mut chars: Vec<char> = Vec::new();
    for c in it: s.chars()
        invariant
            chars@ == it.seq().take(it.index()),
            it.seq() == s@,
    {
        chars.push(c);
    }
    chars
}

/// Whether `a` and `b` hold the same characters.
pub fn same(a: &str, b: &str) -> (r: bool)
    ensures
        r == (a@ == b@),
{
    let mut left = a.chars();
    let mut right = b.chars();
    let ghost mut seen: int = 0;
    loop
        invariant
            0 <= seen <= a@.len(),
            seen <= b@.len(),
            vstd::std_specs::iter::IteratorSpec::remaining(&left) == a@.skip(seen),
            vstd::std_specs::iter::IteratorSpec::remaining(&right) == b@.skip(seen),
            a@.take(seen) == b@.take(seen),
        decreases a@.len() - seen,
    {
        let c: Option<char> = left.next();
        let d: Option<char> = right.next();
        match (c, d) {
            (Some(x), Some(y)) => {
                assert(x == a@[seen] && y == b@[seen]);
                if x != y {
                    return false;
                }
                proof {
                    assert(a@.skip(seen).drop_first() =~= a@.skip(seen + 1));
                    assert(b@.skip(seen).drop_first() =~= b@.skip(seen + 1));
                    assert(a@.take(seen + 1) =~= a@.take(seen).push(a@[seen]));
                    assert(b@.take(seen + 1) =~= b@.take(seen).push(b@[seen]));
                    seen = seen + 1;
                }
            },
            (None, None) => {
                assert(a@.take(seen) =~= a@ && b@.take(seen) =~= b@);
                return true;
            },
            (_, _) => {
                return false;
            },
        }
    }
}

/// Whether `a` comes before `b` in the order of strings: character by character.
pub open spec fn comes_before(a: Seq<char>, b: Seq<char>) -> bool
    decreases b.len(),
{
    if b.len() == 0 {
        false
    } else if a.len() == 0 {
        true
    } else if a[0] != b[0] {
        a[0] < b[0]
    } else {
        comes_before(a.drop_first(), b.drop_first())
    }
}

/// Whether `a` comes before `b` in the order of strings.
pub fn precedes(a: &str, b: &str) -> (r: bool)
    ensures
        r == comes_before(a@, b@),
{
    let mut left = a.chars();
    let mut right = b.chars();
    let ghost mut seen: int = 0;
    assert(a@.skip(0) =~= a@ && b@.skip(0) =~= b@);
    loop
        invariant
            0 <= seen <= a@.len(),
            seen <= b@.len(),
            vstd::std_specs::iter::IteratorSpec::remaining(&left) == a@.skip(seen),
            vstd::std_specs::iter::IteratorSpec::remaining(&right) == b@.skip(seen),
            comes_before(a@, b@) == comes_before(a@.skip(seen), b@.skip(seen)),
        decreases a@.len() - seen,
    {
        let c: Option<char> = left.next();
        let d: Option<char> = right.next();
        match (c, d) {
            (Some(x), Some(y)) => {
                if x != y {
                    return x < y;
                }
                proof {
                    assert(a@.skip(seen).drop_first() =~= a@.skip(seen + 1));
                    assert(b@.skip(seen).drop_first() =~= b@.skip(seen + 1));
                    seen = seen + 1;
                }
            },
            (None, Some(_)) => {
                return true;
            },
            (_, None) => {
                return false;
            },
        }
    }
}

/// No string comes before itself.
pub proof fn comes_before_is_irreflexive(a: Seq<char>)
    ensures
        !comes_before(a, a),
    decreases a.len(),
{
    if a.len() > 0 {
        comes_before_is_irreflexive(a.drop_first());
    }
}

/// What comes before a string comes before all that the string comes before.
pub proof fn comes_before_is_transitive(a: Seq<char>, b: Seq<char>, c: Seq<char>)
    requires
        comes_before(a, b),
        comes_before(b, c),
    ensures
        comes_before(a, c),
    decreases c.len(),
{
    if a.len() > 0 && b.len() > 0 && c.len() > 0 && a[0] == b[0] && b[0] == c[0] {
        comes_before_is_transitive(a.drop_first(), b.drop_first(), c.drop_first());
    }
}

/// Of two different strings, one comes before the other.
pub proof fn comes_before_is_total(a: Seq<char>, b: Seq<char>)
    ensures
        comes_before(a, b) || comes_before(b, a) || a == b,
    decreases b.len(),
{
    if a.len() > 0 && b.len() > 0 && a[0] == b[0] {
        comes_before_is_total(a.drop_first(), b.drop_first());
        if a.drop_first() == b.drop_first() {
            assert(a =~= seq![a[0]] + a.drop_first());
            assert(b =~= seq![b[0]] + b.drop_first());
        }
    } else if a.len() == 0 && b.len() == 0 {
        assert(a =~= b);
    }
}

/// Whether `c` has the Unicode property White_Space.
pub open spec fn white_space(c: char) -> bool {
    ||| 0x09 <= c as u32 <= 0x0D
    ||| c as u32 == 0x20
    ||| c as u32 == 0x85
    ||| c as u32 == 0xA0
    ||| c as u32 == 0x1680
    ||| 0x2000 <= c as u32 <= 0x200A
    ||| c as u32 == 0x2028
    ||| c as u32 == 0x2029
    ||| c as u32 == 0x202F
    ||| c as u32 == 0x205F
    ||| c as u32 == 0x3000
}

/// Whether `c` has the Unicode property White_Space.
pub fn is_white_space(c: char) -> (r: bool)
    ensures
        r == white_space(c),
{
    let code: u32 = c as u32;
    (0x09 <= code && code <= 0x0D) || code == 0x20 || code == 0x85 || code == 0xA0 || code == 0x1680
        || (0x2000 <= code && code <= 0x200A) || code == 0x2028 || code == 0x2029 || code == 0x202F
        || code == 0x205F || code == 0x3000
}

/// `s` without the white space that it starts with.
pub open spec fn trimmed_start(s: Seq<char>) -> Seq<char>
    decreases s.len(),
{
    if s.len() > 0 && white_space(s.first()) {
        trimmed_start(s.drop_first())
    } else {
        s
    }
}

/// `s` without the white space that it ends with.
pub open spec fn trimmed_end(s: Seq<char>) -> Seq<char>
    decreases s.len(),
{
    if s.len() > 0 && white_space(s.last()) {
        trimmed_end(s.drop_last())
    } else {
        s
    }
}

/// `s` without the `./` that it starts with, however many there are.
pub open spec fn without_dot_slash(s: Seq<char>) -> Seq<char>
    decreases s.len(),
{
    if s.len() >= 2 && s[0] == '.' && s[1] == '/' {
        without_dot_slash(s.skip(2))
    } else {
        s
    }
}

/// A path as a caller writes it, in the form that scanned paths have: no white space round it
/// and no leading `./`.
pub open spec fn plain_path(raw: Seq<char>) -> Seq<char> {
    without_dot_slash(trimmed_end(trimmed_start(raw)))
}

/// A path as a caller writes it, in the form that scanned paths have.
pub fn clean_path(raw: &str) -> (path: &str)
    ensures
        path@ == plain_path(raw@),
{
    let chars: Vec<char> = chars_of(raw);
    let mut from: usize = 0;
    assert(raw@.skip(0) =~= raw@);
    while from < chars.len() && is_white_space(chars[from])
        invariant
            from <= chars.len(),
            chars@ == raw@,
            trimmed_start(raw@) == trimmed_start(raw@.skip(from as int)),
        decreases chars.len() - from,
    {
        assert(raw@.skip(from as int).drop_first() =~= raw@.skip(from + 1));
        from += 1;
    }
    let ghost started: Seq<char> = raw@.skip(from as int);
    let mut to: usize = chars.len();
    assert(raw@.subrange(from as int, to as int) =~= started);
    while from < to && is_white_space(chars[to - 1])
        invariant
            from <= to <= chars.len(),
            chars@ == raw@,
            trimmed_end(started) == trimmed_end(raw@.subrange(from as int, to as int)),
        decreases to - from,
    {
        assert(raw@.subrange(from as int, to as int).drop_last() =~= raw@.subrange(
            from as int,
            to - 1,
        ));
        to -= 1;
    }
    let ghost trimmed: Seq<char> = raw@.subrange(from as int, to as int);
    while to - from >= 2 && chars[from] == '.' && chars[from + 1] == '/'
        invariant
            from <= to <= chars.len(),
            chars@ == raw@,
            without_dot_slash(trimmed) == without_dot_slash(raw@.subrange(from as int, to as int)),
        decreases to - from,
    {
        assert(raw@.subrange(from as int, to as int).skip(2) =~= raw@.subrange(from + 2, to as int));
        from += 2;
    }
    raw.substring_char(from, to)
}

/// Whether `s` ends with `tail`.
pub open spec fn ends_with(s: Seq<char>, tail: Seq<char>) -> bool {
    tail.len() <= s.len() && s.skip(s.len() - tail.len()) == tail
}

/// Whether `s` starts with `head`.
pub open spec fn starts_with(s: Seq<char>, head: Seq<char>) -> bool {
    head.len() <= s.len() && s.take(head.len() as int) == head
}

/// Whether `a` from `start` on holds `b`.
pub fn holds_at(a: &Vec<char>, start: usize, b: &Vec<char>) -> (r: bool)
    requires
        start <= a.len(),
    ensures
        r == starts_with(a@.skip(start as int), b@),
{
    if b.len() > a.len() - start {
        return false;
    }
    for i in 0..b.len()
        invariant
            start + b.len() <= a.len(),
            a@.skip(start as int).take(i as int) == b@.take(i as int),
    {
        assert(a@.skip(start as int).take(i + 1) =~= a@.skip(start as int).take(i as int).push(
            a@[start + i],
        ));
        assert(b@.take(i + 1) =~= b@.take(i as int).push(b@[i as int]));
        if a[start + i] != b[i] {
            assert(a@.skip(start as int)[i as int] != b@[i as int]);
            assert(a@.skip(start as int).take(b@.len() as int)[i as int] == a@[start + i]);
            return false;
        }
    }
    assert(b@.take(b@.len() as int) =~= b@);
    true
}

/// Whether `s` ends with `tail`.
pub fn has_suffix(s: &Vec<char>, tail: &Vec<char>) -> (r: bool)
    ensures
        r == ends_with(s@, tail@),
{
    if tail.len() > s.len() {
        return false;
    }
    let start: usize = s.len() - tail.len();
    assert(s@.skip(start as int).take(tail@.len() as int) =~= s@.skip(start as int));
    holds_at(s, start, tail)
}

/// The decimal digit `d`.
pub open spec fn digit(d: int) -> char {
    ('0' as int + d) as char
}

/// `n` in decimal, without leading zeros.
pub open spec fn decimal(n: nat) -> Seq<char>
    decreases n,
{
    if n < 10 {
        seq![digit(n as int)]
    } else {
        decimal(n / 10).push(digit((n % 10) as int))
    }
}

/// The decimal digit `d` as a string.
fn digit_text(d: u64) -> (text: &'static str)
    requires
        d < 10,
    ensures
        text@ == seq![digit(d as int)],
{
    proof {
        reveal_strlit("0");
        reveal_strlit("1");
        reveal_strlit("2");
        reveal_strlit("3");
        reveal_strlit("4");
        reveal_strlit("5");
        reveal_strlit("6");
        reveal_strlit("7");
        reveal_strlit("8");
        reveal_strlit("9");
    }
    let text: &'static str = match d {
        0 => "0",
        1 => "1",
        2 => "2",
        3 => "3",
        4 => "4",
        5 => "5",
        6 => "6",
        7 => "7",
        8 => "8",
        _ => "9",
    };
    assert(text@ =~= seq![digit(d as int)]);
    text
}

/// `n` in decimal.
pub fn to_decimal(n: u64) -> (text: String)
    ensures
        text@ == decimal(n as nat),
    decreases n,
{
    if n < 10 {
        digit_text(n).to_owned()
    } else {
        let mut text: String = to_decimal(n / 10);
        text.append(digit_text(n % 10));
        assert(text@ =~= decimal(n as nat));
        text
    }
}

/// The strings of `parts` one after the other, with `between` between two of them.
pub open spec fn joined(parts: Seq<Seq<char>>, between: Seq<char>) -> Seq<char>
    decreases parts.len(),
{
    if parts.len() == 0 {
        Seq::empty()
    } else if parts.len() == 1 {
        parts[0]
    } else {
        joined(parts.drop_last(), between) + between + parts.last()
    }
}

/// The strings of `parts` one after the other, with `between` between two of them.
pub fn join(parts: &Vec<String>, between: &str) -> (text: String)
    ensures
        text@ == joined(crate::json::views(parts@), between@),
{
    let ghost all: Seq<Seq<char>> = crate::json::views(parts@);
    let mut text: String = String::new();
    for i in 0..parts.len()
        invariant
            all == crate::json::views(parts@),
            text@ == joined(all.take(i as int), between@),
    {
        if i > 0 {
            text.append(between);
        }
        text.append(parts[i].as_str());
        proof {
            assert(all.take(i + 1).drop_last() =~= all.take(i as int));
            assert(all.take(i + 1).last() == parts[i as int]@);
            if i == 0 {
                assert(text@ =~= parts[0]@);
            }
        }
    }
    assert(all.take(parts.len() as int) =~= all);
    text
}

/// A path without white space round it and without a leading `./` is left as it is.
pub proof fn plain_paths_stay(path: Seq<char>)
    requires
        path.len() > 0 ==> !white_space(path.first()) && !white_space(path.last()),
        !(path.len() >= 2 && path[0] == '.' && path[1] == '/'),
    ensures
        plain_path(path) == path,
{
}

proof fn lemma_without_dot_slash(s: Seq<char>)
    ensures
        !starts_with(without_dot_slash(s), seq!['.', '/']),
    decreases s.len(),
{
    if s.len() >= 2 && s[0] == '.' && s[1] == '/' {
        lemma_without_dot_slash(s.skip(2));
    } else if starts_with(s, seq!['.', '/']) {
        assert(s.take(2)[0] == '.' && s.take(2)[1] == '/');
    }
}

/// However a path is written, no `./` is left at its start.
pub proof fn plain_paths_start_plainly(raw: Seq<char>)
    ensures
        !starts_with(plain_path(raw), seq!['.', '/']),
{
    lemma_without_dot_slash(trimmed_end(trimmed_start(raw)));
}

/// One string comes before another just when they are the same up to some place, and there the one
/// ends and the other goes on, or the one has the lesser character.
pub proof fn strings_are_ordered_by_their_first_difference(a: Seq<char>, b: Seq<char>)
    ensures
        comes_before(a, b) <==> exists|k: int|
            {
                &&& 0 <= k <= a.len()
                &&& k < b.len()
                &&& a.take(k) == #[trigger] b.take(k)
                &&& k == a.len() || a[k] < b[k]
            },
    decreases b.len(),
{
    if b.len() > 0 {
        if a.len() == 0 {
            assert(a.take(0) =~= b.take(0));
        } else if a[0] != b[0] {
            if a[0] < b[0] {
                assert(a.take(0) =~= b.take(0));
            }
            assert forall|k: int| 0 < k <= a.len() && k < b.len() implies a.take(k) != #[trigger] b.take(k) by {
                assert(a.take(k)[0] != b.take(k)[0]);
            }
        } else {
            let c = a.drop_first();
            let d = b.drop_first();
            strings_are_ordered_by_their_first_difference(c, d);
            if comes_before(c, d) {
                let k = choose|k: int|
                    {
                        &&& 0 <= k <= c.len()
                        &&& k < d.len()
                        &&& c.take(k) == #[trigger] d.take(k)
                        &&& k == c.len() || c[k] < d[k]
                    };
                assert(a.take(k + 1) =~= seq![a[0]] + c.take(k));
                assert(b.take(k + 1) =~= seq![b[0]] + d.take(k));
            }
            if exists|k: int|
                {
                    &&& 0 <= k <= a.len()
                    &&& k < b.len()
                    &&& a.take(k) == #[trigger] b.take(k)
                    &&& k == a.len() || a[k] < b[k]
                } {
                let k = choose|k: int|
                    {
                        &&& 0 <= k <= a.len()
                        &&& k < b.len()
                        &&& a.take(k) == #[trigger] b.take(k)
                        &&& k == a.len() || a[k] < b[k]
                    };
                assert(k > 0);
                assert(c.take(k - 1) =~= a.take(k).drop_first());
                assert(d.take(k - 1) =~= b.take(k).drop_first());
            }
        }
    }
}

/// Trimming the start takes away white space, all of it, and nothing else: as many characters as the
/// result says.
pub proof fn trimming_the_start_takes_white_space(s: Seq<char>) -> (k: int)
    ensures
        0 <= k <= s.len(),
        trimmed_start(s) == s.skip(k),
        forall|i: int| 0 <= i < k ==> white_space(#[trigger] s[i]),
        k < s.len() ==> !white_space(s[k]),
    decreases s.len(),
{
    if s.len() > 0 && white_space(s.first()) {
        let rest = s.drop_first();
        let j = trimming_the_start_takes_white_space(rest);
        assert(rest.skip(j) =~= s.skip(j + 1));
        assert forall|i: int| 0 <= i < j + 1 implies white_space(#[trigger] s[i]) by {
            if i > 0 {
                assert(rest[i - 1] == s[i]);
            }
        }
        j + 1
    } else {
        assert(s.skip(0) =~= s);
        0
    }
}

/// Trimming the end takes away white space, all of it, and nothing else: as many characters stay as
/// the result says.
pub proof fn trimming_the_end_takes_white_space(s: Seq<char>) -> (k: int)
    ensures
        0 <= k <= s.len(),
        trimmed_end(s) == s.take(k),
        forall|i: int| k <= i < s.len() ==> white_space(#[trigger] s[i]),
        k > 0 ==> !white_space(s[k - 1]),
    decreases s.len(),
{
    if s.len() > 0 && white_space(s.last()) {
        let rest = s.drop_last();
        let k = trimming_the_end_takes_white_space(rest);
        assert(rest.take(k) =~= s.take(k));
        assert forall|i: int| k <= i < s.len() implies white_space(#[trigger] s[i]) by {
            if i < rest.len() {
                assert(rest[i] == s[i]);
            }
        }
        k
    } else {
        assert(s.take(s.len() as int) =~= s);
        s.len() as int
    }
}

/// What is taken from the start of a path is `./`, as often as the result says, and nothing else.
pub proof fn only_dot_slash_is_taken_away(s: Seq<char>) -> (k: int)
    ensures
        0 <= 2 * k <= s.len(),
        without_dot_slash(s) == s.skip(2 * k),
        forall|i: int| 0 <= i < k ==> #[trigger] s[2 * i] == '.' && s[2 * i + 1] == '/',
        !(s.len() >= 2 * k + 2 && s[2 * k] == '.' && s[2 * k + 1] == '/'),
    decreases s.len(),
{
    if s.len() >= 2 && s[0] == '.' && s[1] == '/' {
        let rest = s.skip(2);
        let j = only_dot_slash_is_taken_away(rest);
        assert(rest.skip(2 * j) =~= s.skip(2 * (j + 1)));
        assert forall|i: int| 0 <= i < j + 1 implies #[trigger] s[2 * i] == '.' && s[2 * i + 1] == '/' by {
            if i > 0 {
                assert(rest[2 * (i - 1)] == s[2 * i]);
                assert(rest[2 * (i - 1) + 1] == s[2 * i + 1]);
            }
        }
        j + 1
    } else {
        assert(s.skip(0) =~= s);
        0
    }
}

/// The number that decimal digits stand for.
pub open spec fn number_of(text: Seq<char>) -> int
    decreases text.len(),
{
    if text.len() == 0 {
        0
    } else {
        10 * number_of(text.drop_last()) + (text.last() as int - '0' as int)
    }
}

/// A number in decimal is made of digits that stand for it, without a zero in front.
pub proof fn decimals_stand_for_their_number(n: nat)
    ensures
        number_of(decimal(n)) == n,
        decimal(n).len() > 0,
        forall|i: int| 0 <= i < decimal(n).len() ==> '0' <= #[trigger] decimal(n)[i] <= '9',
        n > 0 ==> decimal(n)[0] != '0',
    decreases n,
{
    if n < 10 {
        assert(decimal(n).drop_last() =~= Seq::<char>::empty());
        assert(number_of(decimal(n).drop_last()) == 0);
    } else {
        decimals_stand_for_their_number(n / 10);
        assert(decimal(n).drop_last() =~= decimal(n / 10));
    }
}

/// Joined strings stand in their order, with the same between any two of them.
pub proof fn joined_parts_stand_in_order(parts: Seq<Seq<char>>, part: Seq<char>, between: Seq<char>)
    ensures
        joined(Seq::empty(), between).len() == 0,
        joined(parts.push(part), between) == if parts.len() == 0 {
            part
        } else {
            joined(parts, between) + between + part
        },
{
    assert(parts.push(part).drop_last() =~= parts);
}

/// A string ends with another just when it is something and that other, and starts with it just when
/// it is that other and something.
pub proof fn ends_and_starts_are_parts(s: Seq<char>, part: Seq<char>)
    ensures
        ends_with(s, part) <==> exists|front: Seq<char>| s == #[trigger] (front + part),
        starts_with(s, part) <==> exists|rest: Seq<char>| s == #[trigger] (part + rest),
{
    let n = s.len() - part.len();
    if ends_with(s, part) {
        assert(s =~= s.take(n) + part);
    }
    if exists|front: Seq<char>| s == #[trigger] (front + part) {
        let front = choose|front: Seq<char>| s == #[trigger] (front + part);
        assert(s.skip(n) =~= part);
    }
    if starts_with(s, part) {
        assert(s =~= part + s.skip(part.len() as int));
    }
    if exists|rest: Seq<char>| s == #[trigger] (part + rest) {
        let rest = choose|rest: Seq<char>| s == #[trigger] (part + rest);
        assert(s.take(part.len() as int) =~= part);
    }
}

/// A cleaned path is what was written without some white space and then some `./` in front, and
/// without some white space behind; no more of either could be taken away. The result says where it
/// starts, how often `./` stood there, and where it ends.
pub proof fn cleaned_paths_are_parts_of_what_was_written(raw: Seq<char>) -> (part: (int, int, int))
    ensures
        ({
            let (start, k, end) = part;
            &&& 0 <= start
            &&& 0 <= k
            &&& start + 2 * k <= end <= raw.len()
            &&& plain_path(raw) == raw.subrange(start + 2 * k, end)
            &&& forall|i: int| 0 <= i < start ==> white_space(#[trigger] raw[i])
            &&& forall|i: int| end <= i < raw.len() ==> white_space(#[trigger] raw[i])
            &&& forall|i: int| 0 <= i < k ==> #[trigger] raw[start + 2 * i] == '.' && raw[start + 2 * i + 1] == '/'
            &&& start < end ==> !white_space(raw[start]) && !white_space(raw[end - 1])
            &&& !starts_with(plain_path(raw), seq!['.', '/'])
        }),
{
    let start = trimming_the_start_takes_white_space(raw);
    let front = raw.skip(start);
    let kept = trimming_the_end_takes_white_space(front);
    let middle = front.take(kept);
    let k = only_dot_slash_is_taken_away(middle);
    let end = start + kept;
    assert(middle.skip(2 * k) =~= raw.subrange(start + 2 * k, end));
    assert forall|i: int| end <= i < raw.len() implies white_space(#[trigger] raw[i]) by {
        assert(front[i - start] == raw[i]);
    }
    assert forall|i: int| 0 <= i < k implies #[trigger] raw[start + 2 * i] == '.' && raw[start + 2 * i + 1]
        == '/' by {
        assert(middle[2 * i] == raw[start + 2 * i]);
        assert(middle[2 * i + 1] == raw[start + 2 * i + 1]);
    }
    if start < end {
        assert(front[kept - 1] == raw[end - 1]);
    }
    plain_paths_start_plainly(raw);
    (start, k, end)
}

} // verus!
