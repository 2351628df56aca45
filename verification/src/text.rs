//! Text utilities over `String` and `Vec<char>`, specified on `Seq<char>`.

use vstd::prelude::*;

verus! {

/// `String::push` appends one character at the end of the string.
pub assume_specification[ String::push ](s: &mut String, ch: char)
    ensures
        final(s)@ == old(s)@.push(ch),
;

/// The characters of `s`, in order.
pub fn chars_of(s: &str) -> (out: Vec<char>)
    ensures
        out@ == s@,
{
    let mut out: Vec<char> = Vec::new();
    for c in it: s.chars()
        invariant
            out@ == it.seq().take(it.index() as int),
            it.seq() == s@,
    {
        out.push(c);
    }
    out
}

/// The string made of `v[from..to]`.
pub fn string_of(v: &Vec<char>, from: usize, to: usize) -> (out: String)
    requires
        from <= to <= v.len(),
    ensures
        out@ == v@.subrange(from as int, to as int),
{
    let mut out = String::new();
    let mut i: usize = from;
    while i < to
        invariant
            from <= i <= to <= v.len(),
            out@ == v@.subrange(from as int, i as int),
        decreases to - i,
    {
        out.push(v[i]);
        i += 1;
    }
    out
}


/// The position of the first `c` in `s`, or `s.len()` when `s` holds none.
pub open spec fn find_char(s: Seq<char>, c: char) -> nat
    decreases s.len(),
{
    if s.len() == 0 {
        0
    } else if s[0] == c {
        0
    } else {
        1 + find_char(s.skip(1), c)
    }
}

/// `find_char` returns the least position that holds `c`.
pub proof fn lemma_find_char(s: Seq<char>, c: char)
    ensures
        0 <= find_char(s, c) <= s.len(),
        forall|j: int| 0 <= j < find_char(s, c) ==> s[j] != c,
        find_char(s, c) < s.len() ==> s[find_char(s, c) as int] == c,
    decreases s.len(),
{
    if s.len() != 0 && s[0] != c {
        lemma_find_char(s.skip(1), c);
        assert forall|j: int| 0 <= j < find_char(s, c) implies s[j] != c by {
            if j > 0 {
                assert(s.skip(1)[j - 1] == s[j]);
            }
        }
    }
}

/// A position `k` before which `s` holds no `c`, and which holds `c` or is
/// the end of `s`, is `find_char(s, c)`.
pub proof fn lemma_find_char_is(s: Seq<char>, c: char, k: int)
    requires
        0 <= k <= s.len(),
        forall|j: int| 0 <= j < k ==> s[j] != c,
        k < s.len() ==> s[k] == c,
    ensures
        find_char(s, c) == k,
{
    lemma_find_char(s, c);
    let f = find_char(s, c) as int;
    if f < k {
        assert(s[f] == c);
    } else if k < f {
        assert(s[k] == c);
    }
}

/// Position of the first `c` in `v[from..]`, relative to `from`.
pub fn find_char_from(v: &Vec<char>, from: usize, c: char) -> (k: usize)
    requires
        from <= v.len(),
    ensures
        k == find_char(v@.skip(from as int), c),
        from + k <= v.len(),
{
    let mut i: usize = from;
    while i < v.len() && v[i] != c
        invariant
            from <= i <= v.len(),
            forall|j: int| from <= j < i ==> v@[j] != c,
        decreases v.len() - i,
    {
        i += 1;
    }
    proof {
        lemma_find_char_is(v@.skip(from as int), c, i - from);
    }
    i - from
}

/// A line without the carriage return that may end it.
pub open spec fn strip_cr(line: Seq<char>) -> Seq<char> {
    if line.len() > 0 && line.last() == '\r' {
        line.drop_last()
    } else {
        line
    }
}

/// The lines of a text. A line ends at `"\n"` or `"\r\n"`, neither of which
/// belongs to it; the last line needs no line ending, and what follows the
/// last line ending is a line only if it is not empty.
pub open spec fn lines_of(s: Seq<char>) -> Seq<Seq<char>>
    decreases s.len(),
{
    if s.len() == 0 {
        Seq::empty()
    } else {
        let k = find_char(s, '\n') as int;
        if k >= s.len() {
            seq![s]
        } else {
            seq![strip_cr(s.take(k))] + lines_of(s.skip(k + 1))
        }
    }
}

/// The texts that a vector of character vectors holds.
pub open spec fn texts(v: Seq<Vec<char>>) -> Seq<Seq<char>> {
    v.map_values(|x: Vec<char>| x@)
}

/// The texts that a vector of strings holds.
pub open spec fn strs(v: Seq<String>) -> Seq<Seq<char>> {
    v.map_values(|x: String| x@)
}

/// The characters `v[from..to]`.
pub fn slice_of(v: &Vec<char>, from: usize, to: usize) -> (out: Vec<char>)
    requires
        from <= to <= v.len(),
    ensures
        out@ == v@.subrange(from as int, to as int),
{
    let mut out: Vec<char> = Vec::new();
    let mut i: usize = from;
    while i < to
        invariant
            from <= i <= to <= v.len(),
            out@ == v@.subrange(from as int, i as int),
        decreases to - i,
    {
        out.push(v[i]);
        i += 1;
    }
    out
}

/// Splits a text into its lines.
pub fn split_lines(v: &Vec<char>) -> (out: Vec<Vec<char>>)
    ensures
        texts(out@) == lines_of(v@),
{
    let mut out: Vec<Vec<char>> = Vec::new();
    let mut pos: usize = 0;
    proof {
        assert(v@.skip(0) == v@);
    }
    while pos < v.len()
        invariant
            pos <= v.len(),
            lines_of(v@) == texts(out@) + lines_of(v@.skip(pos as int)),
        decreases v.len() - pos,
    {
        let ghost rest = v@.skip(pos as int);
        let k = find_char_from(v, pos, '\n');
        let end = pos + k;
        let ghost before = texts(out@);
        if end >= v.len() {
            let line = slice_of(v, pos, end);
            out.push(line);
            proof {
                assert(line@ == rest);
                assert(texts(out@) =~= before.push(rest));
                assert(v@.skip(end as int).len() == 0);
                assert(lines_of(rest) == seq![rest]);
                assert(lines_of(v@.skip(end as int)) == Seq::<Seq<char>>::empty());
            }
            pos = end;
        } else {
            let stop = if end > pos && v[end - 1] == '\r' {
                end - 1
            } else {
                end
            };
            let line = slice_of(v, pos, stop);
            out.push(line);
            proof {
                assert(rest.take(k as int) == v@.subrange(pos as int, end as int));
                assert(line@ == strip_cr(rest.take(k as int)));
                assert(texts(out@) =~= before.push(line@));
                assert(rest.skip(k + 1) == v@.skip(end + 1));
            }
            pos = end + 1;
        }
    }
    proof {
        assert(v@.skip(pos as int).len() == 0);
    }
    out
}

/// Whether `v` begins with `pat`.
pub fn has_prefix(v: &Vec<char>, pat: &Vec<char>) -> (b: bool)
    ensures
        b == pat@.is_prefix_of(v@),
{
    if pat.len() > v.len() {
        return false;
    }
    let mut i: usize = 0;
    while i < pat.len()
        invariant
            i <= pat.len() <= v.len(),
            forall|j: int| 0 <= j < i ==> pat@[j] == v@[j],
        decreases pat.len() - i,
    {
        if pat[i] != v[i] {
            assert(v@.subrange(0, pat@.len() as int)[i as int] == v@[i as int]);
            return false;
        }
        i += 1;
    }
    assert(v@.subrange(0, pat@.len() as int) =~= pat@);
    true
}


/// Whether `c` is a decimal digit.
pub open spec fn is_digit(c: char) -> bool {
    '0' <= c <= '9'
}

/// The number that a sequence of decimal digits writes.
pub open spec fn digits_value(s: Seq<char>) -> nat
    decreases s.len(),
{
    if s.len() == 0 {
        0
    } else {
        (digits_value(s.drop_last()) * 10 + (s.last() as int - '0' as int)) as nat
    }
}

/// Whether every character of `s` is a decimal digit.
pub open spec fn all_digits(s: Seq<char>) -> bool {
    forall|i: int| 0 <= i < s.len() ==> is_digit(#[trigger] s[i])
}

/// The number that `s` writes in decimal, if `s` is an optional `+` and then
/// one digit or more, and the number is at most `max`.
pub open spec fn parse_number(s: Seq<char>, max: nat) -> Option<nat> {
    let d = if s.len() > 0 && s[0] == '+' {
        s.skip(1)
    } else {
        s
    };
    if d.len() > 0 && all_digits(d) && digits_value(d) <= max {
        Some(digits_value(d))
    } else {
        None
    }
}

/// Among digit sequences, a prefix writes no larger number than the whole.
pub proof fn lemma_digits_value_prefix(s: Seq<char>, k: int)
    requires
        all_digits(s),
        0 <= k <= s.len(),
    ensures
        digits_value(s.take(k)) <= digits_value(s),
    decreases s.len() - k,
{
    if k < s.len() {
        lemma_digits_value_prefix(s, k + 1);
        assert(s.take(k + 1).drop_last() == s.take(k));
        assert(is_digit(s[k]));
        assert(s.take(k + 1).last() == s[k]);
    } else {
        assert(s.take(k) == s);
    }
}

/// Reads `v[from..to]` as a decimal number that is at most `max`.
pub fn read_number(v: &Vec<char>, from: usize, to: usize, max: usize) -> (out: Option<usize>)
    requires
        from <= to <= v.len(),
    ensures
        match parse_number(v@.subrange(from as int, to as int), max as nat) {
            Some(n) => out == Some(n as usize) && n <= max,
            None => out is None,
        },
{
    let ghost s = v@.subrange(from as int, to as int);
    let start: usize = if from < to && v[from] == '+' {
        from + 1
    } else {
        from
    };
    let ghost d = v@.subrange(start as int, to as int);
    proof {
        if start == from {
            assert(d == s);
            if s.len() > 0 {
                assert(s[0] == v@[from as int]);
            }
        } else {
            assert(s[0] == v@[from as int]);
            assert(d == s.skip(1));
        }
    }
    if start == to {
        return None;
    }
    let mut acc: usize = 0;
    let mut i: usize = start;
    while i < to
        invariant
            start <= i <= to <= v.len(),
            d == v@.subrange(start as int, to as int),
            s == v@.subrange(from as int, to as int),
            d == (if s.len() > 0 && s[0] == '+' {
                s.skip(1)
            } else {
                s
            }),
            d.len() > 0,
            all_digits(d.take(i - start)),
            acc == digits_value(d.take(i - start)),
            acc <= max,
        decreases to - i,
    {
        let c = v[i];
        let ghost next = d.take(i - start + 1);
        proof {
            assert(d[i - start] == c);
            assert(next.drop_last() == d.take(i - start));
            assert(next.last() == c);
        }
        if c < '0' || c > '9' {
            assert(!is_digit(d[i - start]));
            return None;
        }
        let digit: usize = (c as u32 - '0' as u32) as usize;
        if digit > max || acc > (max - digit) / 10 {
            proof {
                assert(digits_value(next) > max) by (nonlinear_arith)
                    requires
                        digits_value(next) == acc * 10 + digit,
                        digit > max || acc > (max - digit) / 10,
                        0 <= digit <= 9,
                        0 <= acc,
                ;
                if all_digits(d) {
                    lemma_digits_value_prefix(d, i - start + 1);
                }
            }
            return None;
        }
        assert(acc * 10 + digit <= max) by (nonlinear_arith)
            requires
                acc <= (max - digit) / 10,
                digit <= max,
        ;
        acc = acc * 10 + digit;
        proof {
            assert forall|j: int| 0 <= j < next.len() implies is_digit(#[trigger] next[j]) by {
                if j < next.len() - 1 {
                    assert(d.take(i - start)[j] == next[j]);
                }
            }
        }
        i += 1;
    }
    proof {
        assert(d.take(to - start) == d);
    }
    Some(acc)
}


/// The characters that Unicode gives the property `White_Space`.
pub open spec fn is_space(c: char) -> bool {
    let n = c as u32;
    ||| 0x09 <= n <= 0x0d
    ||| n == 0x20
    ||| n == 0x85
    ||| n == 0xa0
    ||| n == 0x1680
    ||| 0x2000 <= n <= 0x200a
    ||| n == 0x2028
    ||| n == 0x2029
    ||| n == 0x202f
    ||| n == 0x205f
    ||| n == 0x3000
}

/// Whether `c` is a white space character.
pub fn space(c: char) -> (b: bool)
    ensures
        b == is_space(c),
{
    let n: u32 = c as u32;
    (0x09 <= n && n <= 0x0d) || n == 0x20 || n == 0x85 || n == 0xa0 || n == 0x1680 || (0x2000 <= n
        && n <= 0x200a) || n == 0x2028 || n == 0x2029 || n == 0x202f || n == 0x205f || n == 0x3000
}

/// `s` without the white space that it begins with.
pub open spec fn trim_start(s: Seq<char>) -> Seq<char>
    decreases s.len(),
{
    if s.len() > 0 && is_space(s[0]) {
        trim_start(s.skip(1))
    } else {
        s
    }
}

/// `s` without the white space that it ends with.
pub open spec fn trim_end(s: Seq<char>) -> Seq<char>
    decreases s.len(),
{
    if s.len() > 0 && is_space(s.last()) {
        trim_end(s.drop_last())
    } else {
        s
    }
}

/// `s` without the white space at its two ends.
pub open spec fn trim(s: Seq<char>) -> Seq<char> {
    trim_end(trim_start(s))
}

/// Trimming leaves a part of the text.
pub proof fn lemma_trim_start_is_skip(s: Seq<char>, k: int)
    requires
        0 <= k <= s.len(),
        forall|j: int| 0 <= j < k ==> is_space(s[j]),
        k < s.len() ==> !is_space(s[k]),
    ensures
        trim_start(s) == s.skip(k),
    decreases k,
{
    if k == 0 {
        assert(s.skip(0) == s);
    } else {
        assert(is_space(s[0]));
        let t = s.skip(1);
        assert forall|j: int| 0 <= j < k - 1 implies is_space(t[j]) by {
            assert(t[j] == s[j + 1]);
        }
        lemma_trim_start_is_skip(t, k - 1);
        assert(t.skip(k - 1) == s.skip(k));
    }
}

/// Trimming leaves a part of the text.
pub proof fn lemma_trim_end_is_take(s: Seq<char>, k: int)
    requires
        0 <= k <= s.len(),
        forall|j: int| k <= j < s.len() ==> is_space(s[j]),
        k > 0 ==> !is_space(s[k - 1]),
    ensures
        trim_end(s) == s.take(k),
    decreases s.len() - k,
{
    if k == s.len() {
        assert(s.take(k) == s);
    } else {
        assert(is_space(s.last()));
        let t = s.drop_last();
        lemma_trim_end_is_take(t, k);
        assert(t.take(k) == s.take(k));
    }
}

/// The bounds of `trim(v@)` within `v`.
pub fn trim_bounds(v: &Vec<char>) -> (b: (usize, usize))
    ensures
        b.0 <= b.1 <= v.len(),
        trim(v@) == v@.subrange(b.0 as int, b.1 as int),
{
    let mut from: usize = 0;
    while from < v.len() && space(v[from])
        invariant
            from <= v.len(),
            forall|j: int| 0 <= j < from ==> is_space(v@[j]),
        decreases v.len() - from,
    {
        from += 1;
    }
    let mut to: usize = v.len();
    while to > from && space(v[to - 1])
        invariant
            from <= to <= v.len(),
            forall|j: int| to <= j < v.len() ==> is_space(v@[j]),
        decreases to,
    {
        to -= 1;
    }
    proof {
        lemma_trim_start_is_skip(v@, from as int);
        let t = v@.skip(from as int);
        assert forall|j: int| to - from <= j < t.len() implies is_space(t[j]) by {
            assert(t[j] == v@[j + from]);
        }
        if to > from {
            assert(t[to - from - 1] == v@[to - 1]);
        }
        lemma_trim_end_is_take(t, to - from);
        assert(t.take(to - from) == v@.subrange(from as int, to as int));
    }
    (from, to)
}

/// `s` with each line feed replaced by a space.
pub open spec fn unfold_lines(s: Seq<char>) -> Seq<char> {
    s.map_values(
        |c: char|
            if c == '\n' {
                ' '
            } else {
                c
            },
    )
}

/// A text on one line: trimmed, and with a space for each line feed left.
pub open spec fn flatten(s: Seq<char>) -> Seq<char> {
    unfold_lines(trim(s))
}

/// Appends the one-line form of `v` to `out`.
pub fn push_flattened(out: &mut Vec<char>, v: &Vec<char>)
    ensures
        final(out)@ == old(out)@ + flatten(v@),
{
    let (from, to) = trim_bounds(v);
    let ghost t = trim(v@);
    let mut i: usize = from;
    while i < to
        invariant
            from <= i <= to <= v.len(),
            t == v@.subrange(from as int, to as int),
            out@ == old(out)@ + unfold_lines(t.take(i - from)),
        decreases to - i,
    {
        let c = v[i];
        out.push(if c == '\n' { ' ' } else { c });
        proof {
            assert(t[i - from] == c);
            assert(unfold_lines(t.take(i - from + 1)) =~= unfold_lines(t.take(i - from)).push(
                if c == '\n' { ' ' } else { c },
            ));
        }
        i += 1;
    }
    assert(t.take(to - from) == t);
}

/// The texts of `parts`, with `sep` between each two.
pub open spec fn join(parts: Seq<Seq<char>>, sep: Seq<char>) -> Seq<char>
    decreases parts.len(),
{
    if parts.len() == 0 {
        Seq::empty()
    } else if parts.len() == 1 {
        parts[0]
    } else {
        join(parts.drop_last(), sep) + sep + parts.last()
    }
}

/// Joining one more part adds the separator and the part, but for the first.
pub proof fn lemma_join_push(parts: Seq<Seq<char>>, part: Seq<char>, sep: Seq<char>)
    ensures
        join(parts.push(part), sep) == if parts.len() == 0 {
            part
        } else {
            join(parts, sep) + sep + part
        },
{
    assert(parts.push(part).drop_last() == parts);
}

/// Appends the characters of `v` to `out`.
pub fn push_all(out: &mut Vec<char>, v: &Vec<char>)
    ensures
        final(out)@ == old(out)@ + v@,
{
    let mut i: usize = 0;
    while i < v.len()
        invariant
            i <= v.len(),
            out@ == old(out)@ + v@.take(i as int),
        decreases v.len() - i,
    {
        out.push(v[i]);
        assert(v@.take(i + 1) == v@.take(i as int).push(v@[i as int]));
        i += 1;
    }
    assert(v@.take(v@.len() as int) == v@);
}

/// Appends the characters of `s` to `out`.
pub fn push_str(out: &mut Vec<char>, s: &str)
    ensures
        final(out)@ == old(out)@ + s@,
{
    let v = chars_of(s);
    push_all(out, &v);
}

/// The decimal digit for `d`.
pub open spec fn digit_char(d: nat) -> char
    recommends
        d < 10,
{
    ('0' as u8 + d as u8) as char
}

/// `n` written in decimal.
pub open spec fn decimal(n: nat) -> Seq<char>
    decreases n,
{
    if n < 10 {
        seq![digit_char(n)]
    } else {
        decimal(n / 10).push(digit_char(n % 10))
    }
}

/// Appends `n`, written in decimal, to `out`.
pub fn push_decimal(out: &mut Vec<char>, n: u128)
    ensures
        final(out)@ == old(out)@ + decimal(n as nat),
{
    let mut digits: Vec<char> = Vec::new();
    let mut rest: u128 = n;
    // `digits` holds the low digits of `n`, the lowest first
    while rest >= 10
        invariant
            decimal(n as nat) == decimal(rest as nat) + digits@.reverse(),
        decreases rest,
    {
        let d: u8 = (rest % 10) as u8;
        let ghost before = digits@;
        digits.push((48u8 + d) as char);
        proof {
            assert((48u8 + d) as char == digit_char((rest % 10) as nat));
            assert(digits@.reverse() =~= seq![digit_char((rest % 10) as nat)] + before.reverse());
            assert(decimal(rest as nat) == decimal((rest / 10) as nat).push(
                digit_char((rest % 10) as nat),
            ));
        }
        rest = rest / 10;
    }
    let d: u8 = rest as u8;
    out.push((48u8 + d) as char);
    assert((48u8 + d) as char == digit_char(rest as nat));
    let mut i: usize = digits.len();
    while i > 0
        invariant
            i <= digits.len(),
            out@ == old(out)@ + decimal(rest as nat) + digits@.reverse().take(digits.len() - i),
        decreases i,
    {
        i -= 1;
        out.push(digits[i]);
        proof {
            let r = digits@.reverse();
            assert(r[digits.len() - i - 1] == digits@[i as int]);
            assert(r.take(digits.len() - i) == r.take(digits.len() - i - 1).push(digits@[i as int]));
        }
    }
    proof {
        let r = digits@.reverse();
        assert(r.take(digits.len() as int) == r);
    }
}


/// The text `v` between `front` and `back`; or, where there is a `mid`,
/// `v` twice: behind `front` and before `back`, with `mid` in between.
pub open spec fn decorated(
    v: Seq<char>,
    front: Seq<char>,
    mid: Option<Seq<char>>,
    back: Seq<char>,
) -> Seq<char> {
    match mid {
        Some(m) => front + v + m + v + back,
        None => front + v + back,
    }
}

/// What `mid` holds, as a text.
pub open spec fn opt_text(mid: Option<&str>) -> Option<Seq<char>> {
    match mid {
        Some(m) => Some(m@),
        None => None,
    }
}

/// Appends each of `items`, decorated, with `sep` between each two.
pub fn push_joined(
    out: &mut Vec<char>,
    items: &Vec<String>,
    front: &str,
    mid: Option<&str>,
    back: &str,
    sep: &str,
)
    ensures
        final(out)@ == old(out)@ + join(
            strs(items@).map_values(|v: Seq<char>| decorated(v, front@, opt_text(mid), back@)),
            sep@,
        ),
{
    let ghost deco = |v: Seq<char>| decorated(v, front@, opt_text(mid), back@);
    let mut all: Vec<char> = Vec::new();
    let mut i: usize = 0;
    assert(strs(items@).take(0).map_values(deco) =~= Seq::<Seq<char>>::empty());
    while i < items.len()
        invariant
            i <= items.len(),
            deco == |v: Seq<char>| decorated(v, front@, opt_text(mid), back@),
            all@ == join(strs(items@).take(i as int).map_values(deco), sep@),
        decreases items.len() - i,
    {
        let ghost parts = strs(items@).take(i as int).map_values(deco);
        let mut one: Vec<char> = Vec::new();
        push_str(&mut one, front);
        push_str(&mut one, items[i].as_str());
        match mid {
            Some(m) => {
                push_str(&mut one, m);
                push_str(&mut one, items[i].as_str());
            },
            None => {},
        }
        push_str(&mut one, back);
        assert(one@ =~= deco(items@[i as int]@));
        if i > 0 {
            push_str(&mut all, sep);
        }
        push_all(&mut all, &one);
        proof {
            lemma_join_push(parts, one@, sep@);
            assert(strs(items@).take(i + 1).map_values(deco) =~= parts.push(one@));
        }
        i += 1;
    }
    assert(strs(items@).take(items@.len() as int) == strs(items@));
    push_all(out, &all);
}


/// Whether `v` ends with `pat`.
pub fn has_suffix(v: &Vec<char>, pat: &Vec<char>) -> (b: bool)
    ensures
        b == pat@.is_suffix_of(v@),
{
    if pat.len() > v.len() {
        return false;
    }
    let shift = v.len() - pat.len();
    let mut i: usize = 0;
    while i < pat.len()
        invariant
            i <= pat.len() <= v.len(),
            shift == v.len() - pat.len(),
            forall|j: int| 0 <= j < i ==> pat@[j] == v@[shift + j],
        decreases pat.len() - i,
    {
        if pat[i] != v[shift + i] {
            assert(v@.subrange(shift as int, v@.len() as int)[i as int] == v@[shift + i]);
            return false;
        }
        i += 1;
    }
    assert(v@.subrange(shift as int, v@.len() as int) =~= pat@);
    true
}


/// Whether `needle` stands in `hay` at position `k`.
pub open spec fn occurs_at(hay: Seq<char>, needle: Seq<char>, k: int) -> bool {
    0 <= k && k + needle.len() <= hay.len() && hay.subrange(k, k + needle.len()) == needle
}

/// Whether `needle` stands somewhere in `hay`.
pub open spec fn occurs_in(hay: Seq<char>, needle: Seq<char>) -> bool {
    exists|k: int| occurs_at(hay, needle, k)
}

/// Whether `needle` stands in `hay` at position `k`.
pub fn stands_at(hay: &Vec<char>, needle: &Vec<char>, k: usize) -> (b: bool)
    ensures
        b == occurs_at(hay@, needle@, k as int),
{
    if needle.len() > hay.len() || k > hay.len() - needle.len() {
        return false;
    }
    let mut i: usize = 0;
    while i < needle.len()
        invariant
            i <= needle.len(),
            k + needle.len() <= hay.len(),
            forall|j: int| 0 <= j < i ==> hay@[k + j] == needle@[j],
        decreases needle.len() - i,
    {
        if hay[k + i] != needle[i] {
            assert(hay@.subrange(k as int, k + needle@.len())[i as int] == hay@[k + i]);
            return false;
        }
        i += 1;
    }
    assert(hay@.subrange(k as int, k + needle@.len()) =~= needle@);
    true
}

/// Whether `needle` stands somewhere in `hay`.
pub fn contains_text(hay: &Vec<char>, needle: &Vec<char>) -> (b: bool)
    ensures
        b == occurs_in(hay@, needle@),
{
    let mut k: usize = 0;
    while k < hay.len()
        invariant
            k <= hay.len(),
            forall|j: int| 0 <= j < k ==> !occurs_at(hay@, needle@, j),
        decreases hay.len() - k,
    {
        if stands_at(hay, needle, k) {
            return true;
        }
        k += 1;
    }
    stands_at(hay, needle, k)
}

/// Whether the text `needle` stands somewhere in the text `hay`.
pub fn str_contains(hay: &str, needle: &str) -> (b: bool)
    ensures
        b == occurs_in(hay@, needle@),
{
    let h = chars_of(hay);
    let n = chars_of(needle);
    contains_text(&h, &n)
}

/// The lower-case form of an ASCII capital letter; any other character
/// itself.
pub open spec fn lower_char(c: char) -> char {
    if 'A' <= c <= 'Z' {
        ((c as u8) + 32) as char
    } else {
        c
    }
}

/// `s` with each ASCII capital letter in lower case.
pub open spec fn ascii_lower(s: Seq<char>) -> Seq<char> {
    s.map_values(|c: char| lower_char(c))
}

/// `s` with each ASCII capital letter in lower case.
pub fn to_ascii_lower(s: &str) -> (out: Vec<char>)
    ensures
        out@ == ascii_lower(s@),
{
    let v = chars_of(s);
    let mut out: Vec<char> = Vec::new();
    let mut i: usize = 0;
    while i < v.len()
        invariant
            i <= v.len(),
            v@ == s@,
            out@ == ascii_lower(s@.take(i as int)),
        decreases v.len() - i,
    {
        let c = v[i];
        let ghost before = out@;
        if 'A' <= c && c <= 'Z' {
            out.push(((c as u8) + 32) as char);
        } else {
            out.push(c);
        }
        assert(out@ == before.push(lower_char(c)));
        assert(s@.take(i + 1) == s@.take(i as int).push(c));
        assert(out@ =~= ascii_lower(s@.take(i + 1)));
        i += 1;
    }
    assert(s@.take(v@.len() as int) == s@);
    out
}

/// `s` without every `pat` that it ends with, one behind the other.
pub open spec fn strip_ends(s: Seq<char>, pat: Seq<char>) -> Seq<char>
    decreases s.len(),
{
    if pat.len() > 0 && pat.is_suffix_of(s) {
        strip_ends(s.take(s.len() - pat.len()), pat)
    } else {
        s
    }
}

/// The length of `strip_ends(v@, pat@)`, which `v` begins with.
pub fn strip_ends_len(v: &Vec<char>, pat: &Vec<char>) -> (n: usize)
    ensures
        n <= v.len(),
        strip_ends(v@, pat@) == v@.take(n as int),
{
    let mut n: usize = v.len();
    assert(v@.take(n as int) == v@);
    if pat.len() == 0 {
        return n;
    }
    loop
        invariant
            n <= v.len(),
            pat.len() > 0,
            strip_ends(v@, pat@) == strip_ends(v@.take(n as int), pat@),
        decreases n,
    {
        let head = slice_of(v, 0, n);
        assert(head@ == v@.take(n as int));
        if !has_suffix(&head, pat) {
            return n;
        }
        assert(v@.take(n as int).take(n - pat.len()) == v@.take(n - pat.len()));
        n = n - pat.len();
    }
}

/// `s` without every `pat` that it begins with, one behind the other.
pub open spec fn strip_starts(s: Seq<char>, pat: Seq<char>) -> Seq<char>
    decreases s.len(),
{
    if pat.len() > 0 && pat.is_prefix_of(s) {
        strip_starts(s.skip(pat.len() as int), pat)
    } else {
        s
    }
}

/// The position in `v` at which `strip_starts(v@, pat@)` begins.
pub fn strip_starts_at(v: &Vec<char>, pat: &Vec<char>) -> (n: usize)
    ensures
        n <= v.len(),
        strip_starts(v@, pat@) == v@.skip(n as int),
{
    let mut n: usize = 0;
    assert(v@.skip(0) == v@);
    if pat.len() == 0 {
        return n;
    }
    loop
        invariant
            n <= v.len(),
            pat.len() > 0,
            strip_starts(v@, pat@) == strip_starts(v@.skip(n as int), pat@),
        decreases v.len() - n,
    {
        let tail = slice_of(v, n, v.len());
        assert(tail@ == v@.skip(n as int));
        if !has_prefix(&tail, pat) {
            return n;
        }
        assert(v@.skip(n as int).skip(pat@.len() as int) == v@.skip(n + pat@.len()));
        n = n + pat.len();
    }
}

/// The parts of `s` between the occurrences of `c`: one part more than
/// there are occurrences.
pub open spec fn split_on(s: Seq<char>, c: char) -> Seq<Seq<char>>
    decreases s.len(),
{
    let k = find_char(s, c) as int;
    if k >= s.len() {
        seq![s]
    } else {
        seq![s.take(k)] + split_on(s.skip(k + 1), c)
    }
}

/// The parts of `v` between the occurrences of `c`, each trimmed.
pub fn split_trimmed(v: &Vec<char>, c: char) -> (out: Vec<Vec<char>>)
    ensures
        texts(out@) == split_on(v@, c).map_values(|p: Seq<char>| trim(p)),
{
    let ghost trimmed = |p: Seq<char>| trim(p);
    let mut out: Vec<Vec<char>> = Vec::new();
    let mut pos: usize = 0;
    let mut done = false;
    proof {
        assert(v@.skip(0) == v@);
        assert(texts(out@) =~= Seq::<Seq<char>>::empty());
    }
    while !done
        invariant
            pos <= v.len(),
            trimmed == |p: Seq<char>| trim(p),
            !done ==> split_on(v@, c).map_values(trimmed) == texts(out@) + split_on(
                v@.skip(pos as int),
                c,
            ).map_values(trimmed),
            done ==> split_on(v@, c).map_values(trimmed) == texts(out@),
        decreases v.len() - pos + (if done { 0int } else { 1int }),
    {
        let ghost rest = v@.skip(pos as int);
        let ghost before = texts(out@);
        let k = find_char_from(v, pos, c);
        let part = slice_of(v, pos, pos + k);
        let (from, to) = trim_bounds(&part);
        let kept = slice_of(&part, from, to);
        out.push(kept);
        proof {
            assert(part@ == rest.take(k as int));
            assert(kept@ == trim(part@));
            assert(texts(out@) =~= before.push(trim(part@)));
        }
        if pos + k >= v.len() {
            proof {
                assert(part@ == rest);
                assert(split_on(rest, c) == seq![rest]);
                assert(seq![rest].map_values(trimmed) =~= seq![trim(rest)]);
            }
            done = true;
        } else {
            proof {
                assert(rest.skip(k + 1) == v@.skip(pos + k + 1));
                assert((seq![rest.take(k as int)] + split_on(rest.skip(k + 1), c)).map_values(
                    trimmed,
                ) =~= seq![trim(part@)] + split_on(rest.skip(k + 1), c).map_values(trimmed));
            }
            pos = pos + k + 1;
        }
    }
    out
}


/// The text that `String::from_utf8_lossy` makes of a sequence of bytes.
pub uninterp spec fn lossy_text(bytes: Seq<u8>) -> Seq<char>;

/// `String::from_utf8_lossy` reads bytes as UTF-8, with a replacement
/// character for what is no UTF-8.
#[verifier::external_body]
fn utf8_lossy(bytes: &[u8]) -> (out: String)
    ensures
        out@ == lossy_text(bytes@),
{
    String::from_utf8_lossy(bytes).into_owned()
}

/// The output of a command as a text.
pub fn cmd_output_to_string(output: &[u8]) -> (out: String)
    ensures
        out@ == lossy_text(output@),
{
    utf8_lossy(output)
}

/// What the `Debug` form of a `str` is: the text in quotes, with escapes.
pub uninterp spec fn debug_form(s: Seq<char>) -> Seq<char>;

/// The `Debug` form of `s`, as `format!("{:?}", s)` writes it.
#[verifier::external_body]
pub(crate) fn debug_of(s: &str) -> (out: String)
    ensures
        out@ == debug_form(s@),
{
    format!("{:?}", s)
}

/// The message for a value that is not supported.
pub fn unsupported(s: &str) -> (out: String)
    ensures
        out@ == "unsupported value "@ + debug_form(s@),
{
    let quoted = debug_of(s);
    let mut out: Vec<char> = Vec::new();
    push_str(&mut out, "unsupported value ");
    push_str(&mut out, quoted.as_str());
    string_of(&out, 0, out.len())
}

/// The texts `a` and `b`, one behind the other.
pub fn concat2(a: &str, b: &str) -> (out: String)
    ensures
        out@ == a@ + b@,
{
    let mut out: Vec<char> = Vec::new();
    push_str(&mut out, a);
    push_str(&mut out, b);
    string_of(&out, 0, out.len())
}

/// The texts `a`, `b` and `c`, one behind the other.
pub fn concat3(a: &str, b: &str, c: &str) -> (out: String)
    ensures
        out@ == a@ + b@ + c@,
{
    let mut out: Vec<char> = Vec::new();
    push_str(&mut out, a);
    push_str(&mut out, b);
    push_str(&mut out, c);
    string_of(&out, 0, out.len())
}

/// `n` written in decimal.
pub fn decimal_string(n: usize) -> (out: String)
    ensures
        out@ == decimal(n as nat),
{
    let mut out: Vec<char> = Vec::new();
    push_decimal(&mut out, n as u128);
    string_of(&out, 0, out.len())
}


/// What stands in a text stands in every text that holds that text.
pub proof fn lemma_occurs_extend(inner: Seq<char>, x: Seq<char>, pre: Seq<char>, post: Seq<char>)
    requires
        occurs_in(inner, x),
    ensures
        occurs_in(pre + inner + post, x),
{
    let k = choose|k: int| occurs_at(inner, x, k);
    let whole = pre + inner + post;
    assert(whole.subrange(pre.len() + k, pre.len() + k + x.len()) =~= inner.subrange(
        k,
        k + x.len(),
    ));
    assert(occurs_at(whole, x, pre.len() + k));
}

/// A text stands in itself.
pub proof fn lemma_occurs_self(x: Seq<char>)
    ensures
        occurs_in(x, x),
{
    assert(x.subrange(0, x.len() as int) =~= x);
    assert(occurs_at(x, x, 0));
}

/// Each part stands in what the parts are joined to.
pub proof fn lemma_join_holds_parts(parts: Seq<Seq<char>>, sep: Seq<char>, j: int)
    requires
        0 <= j < parts.len(),
    ensures
        occurs_in(join(parts, sep), parts[j]),
    decreases parts.len(),
{
    let none = Seq::<char>::empty();
    if parts.len() == 1 {
        lemma_occurs_self(parts[0]);
    } else {
        let shorter = parts.drop_last();
        let head = join(shorter, sep);
        if j == parts.len() - 1 {
            lemma_occurs_self(parts[j]);
            lemma_occurs_extend(parts[j], parts[j], head + sep, none);
            assert(head + sep + parts[j] + none =~= join(parts, sep));
        } else {
            lemma_join_holds_parts(shorter, sep, j);
            assert(shorter[j] == parts[j]);
            lemma_occurs_extend(head, parts[j], none, sep + parts.last());
            assert(none + head + (sep + parts.last()) =~= join(parts, sep));
        }
    }
}

/// Whether two texts are the same.
pub fn same_text(a: &str, b: &str) -> (out: bool)
    ensures
        out == (a@ == b@),
{
    let x = chars_of(a);
    let y = chars_of(b);
    if x.len() != y.len() {
        return false;
    }
    let mut i: usize = 0;
    while i < x.len()
        invariant
            i <= x.len(),
            x.len() == y.len(),
            x@ == a@,
            y@ == b@,
            forall|j: int| 0 <= j < i ==> x@[j] == y@[j],
        decreases x.len() - i,
    {
        if x[i] != y[i] {
            return false;
        }
        i += 1;
    }
    assert(x@ =~= y@);
    true
}

} // verus!
