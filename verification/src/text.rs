//! Text and path helpers over `String`, specified over `Seq<char>`.

use vstd::prelude::*;
use vstd::string::*;

verus! {

/// The views of the elements of `items`, in order.
pub open spec fn views<T: View>(items: Seq<T>) -> Seq<T::V> {
    Seq::new(items.len(), |i: int| items[i]@)
}

/// The views of a sequence with one element more are the views of the
/// sequence and the view of that element.
pub proof fn lemma_views_push<T: View>(items: Seq<T>, item: T)
    ensures
        views(items.push(item)) == views(items).push(item@),
{
    assert(views(items.push(item)) =~= views(items).push(item@));
}

/// The characters that Unicode gives the property `White_Space`.
pub open spec fn is_whitespace(c: char) -> bool {
    let n = c as u32;
    (0x0009 <= n <= 0x000D) || n == 0x0020 || n == 0x0085 || n == 0x00A0 || n == 0x1680 || (0x2000
        <= n <= 0x200A) || n == 0x2028 || n == 0x2029 || n == 0x202F || n == 0x205F || n == 0x3000
}

/// The ten decimal digits of ASCII.
pub open spec fn is_digit(c: char) -> bool {
    '0' <= c <= '9'
}

/// Whether `c` is a white-space character.
pub fn char_is_whitespace(c: char) -> (b: bool)
    ensures
        b == is_whitespace(c),
{
    let n: u32 = c as u32;
    (0x0009 <= n && n <= 0x000D) || n == 0x0020 || n == 0x0085 || n == 0x00A0 || n == 0x1680 || (
    0x2000 <= n && n <= 0x200A) || n == 0x2028 || n == 0x2029 || n == 0x202F || n == 0x205F || n
        == 0x3000
}

/// Whether `c` is a decimal digit.
pub fn char_is_digit(c: char) -> (b: bool)
    ensures
        b == is_digit(c),
{
    '0' <= c && c <= '9'
}

/// `a` followed by `b`.
pub fn concat(a: &str, b: &str) -> (out: String)
    ensures
        out@ == a@ + b@,
{
    let mut out = String::from_str(a);
    out.append(b);
    out
}

/// Whether two texts hold the same characters.
pub fn same(a: &str, b: &str) -> (r: bool)
    ensures
        r == (a@ == b@),
{
    let n = a.unicode_len();
    if b.unicode_len() != n {
        return false;
    }
    let mut i: usize = 0;
    while i < n
        invariant
            n == a@.len(),
            n == b@.len(),
            i <= n,
            a@.take(i as int) == b@.take(i as int),
        decreases n - i,
    {
        if a.get_char(i) != b.get_char(i) {
            return false;
        }
        proof {
            assert(a@.take(i + 1) =~= a@.take(i as int).push(a@[i as int]));
            assert(b@.take(i + 1) =~= b@.take(i as int).push(b@[i as int]));
        }
        i += 1;
    }
    proof {
        assert(a@.take(n as int) =~= a@);
        assert(b@.take(n as int) =~= b@);
    }
    true
}

/// Whether `text` begins with `prefix`.
pub fn starts_with(text: &str, prefix: &str) -> (r: bool)
    ensures
        r == prefix@.is_prefix_of(text@),
{
    let n = text.unicode_len();
    let m = prefix.unicode_len();
    if m > n {
        return false;
    }
    let r = same(text.substring_char(0, m), prefix);
    proof {
        if prefix@.is_prefix_of(text@) {
            assert(text@.subrange(0, m as int) =~= prefix@);
        }
    }
    r
}

/// Whether `text` ends with `suffix`.
pub fn ends_with(text: &str, suffix: &str) -> (r: bool)
    ensures
        r == suffix@.is_suffix_of(text@),
{
    let n = text.unicode_len();
    let m = suffix.unicode_len();
    if m > n {
        return false;
    }
    let r = same(text.substring_char(n - m, n), suffix);
    proof {
        if suffix@.is_suffix_of(text@) {
            assert(text@.subrange(n - m, n as int) =~= suffix@);
        }
    }
    r
}

/// `text` cut at every `sep`: the parts between the separators, in order.
/// A text with `k` separators has `k + 1` parts, some of them possibly empty.
pub open spec fn pieces(text: Seq<char>, sep: char) -> Seq<Seq<char>>
    decreases text.len(),
{
    if text.len() == 0 {
        seq![Seq::<char>::empty()]
    } else {
        let before = pieces(text.drop_last(), sep);
        if text.last() == sep {
            before.push(Seq::<char>::empty())
        } else {
            before.drop_last().push(before.last().push(text.last()))
        }
    }
}

/// A text that is cut has one part at least.
pub proof fn lemma_pieces_nonempty(text: Seq<char>, sep: char)
    ensures
        pieces(text, sep).len() >= 1,
    decreases text.len(),
{
    if text.len() > 0 {
        lemma_pieces_nonempty(text.drop_last(), sep);
    }
}

/// No part of a text that is cut at `sep` holds `sep`.
pub proof fn lemma_pieces_hold_no_sep(text: Seq<char>, sep: char, i: int)
    requires
        0 <= i < pieces(text, sep).len(),
    ensures
        !pieces(text, sep)[i].contains(sep),
    decreases text.len(),
{
    if text.len() == 0 {
        assert(pieces(text, sep)[i] =~= Seq::<char>::empty());
    } else {
        let before = pieces(text.drop_last(), sep);
        lemma_pieces_nonempty(text.drop_last(), sep);
        if text.last() == sep {
            if i < before.len() {
                lemma_pieces_hold_no_sep(text.drop_last(), sep, i);
            }
        } else {
            if i < before.len() - 1 {
                lemma_pieces_hold_no_sep(text.drop_last(), sep, i);
            } else {
                lemma_pieces_hold_no_sep(text.drop_last(), sep, before.len() - 1);
                let last = before.last().push(text.last());
                assert forall|k: int| 0 <= k < last.len() implies last[k] != sep by {
                    if k < before.last().len() {
                        assert(before.last().contains(before.last()[k]));
                    }
                }
            }
        }
    }
}

/// Cuts `text` at every `sep`.
pub fn split(text: &str, sep: char) -> (out: Vec<String>)
    ensures
        views(out@) == pieces(text@, sep),
{
    let n = text.unicode_len();
    let mut out: Vec<String> = Vec::new();
    let mut start: usize = 0;
    let mut i: usize = 0;
    proof {
        assert(text@.take(0).len() == 0);
        assert(text@.subrange(0, 0) =~= Seq::<char>::empty());
        assert(views(out@) =~= Seq::<Seq<char>>::empty());
        assert(views(out@).push(text@.subrange(0, 0)) =~= seq![Seq::<char>::empty()]);
    }
    while i < n
        invariant
            n == text@.len(),
            start <= i <= n,
            views(out@).push(text@.subrange(start as int, i as int)) == pieces(
                text@.take(i as int),
                sep,
            ),
        decreases n - i,
    {
        let c = text.get_char(i);
        let ghost before = pieces(text@.take(i as int), sep);
        proof {
            assert(text@.take(i + 1).drop_last() =~= text@.take(i as int));
            assert(text@.take(i + 1).last() == c);
            assert(before.last() == text@.subrange(start as int, i as int));
            assert(before.drop_last() =~= views(out@));
        }
        if c == sep {
            let part = String::from_str(text.substring_char(start, i));
            proof {
                lemma_views_push(out@, part);
            }
            out.push(part);
            start = i + 1;
            proof {
                assert(text@.subrange(start as int, i + 1) =~= Seq::<char>::empty());
            }
        } else {
            proof {
                assert(text@.subrange(start as int, i + 1) =~= text@.subrange(
                    start as int,
                    i as int,
                ).push(c));
            }
        }
        i += 1;
    }
    let part = String::from_str(text.substring_char(start, n));
    proof {
        lemma_views_push(out@, part);
        assert(text@.take(n as int) =~= text@);
    }
    out.push(part);
    out
}

/// `text` without its white space.
pub open spec fn stripped(text: Seq<char>) -> Seq<char> {
    text.filter(|c: char| !is_whitespace(c))
}

/// The decimal digits of `text`, in order.
pub open spec fn digits(text: Seq<char>) -> Seq<char> {
    text.filter(|c: char| is_digit(c))
}

/// Removes every white-space character from `text`.
pub fn strip_whitespace(text: &str) -> (out: String)
    ensures
        out@ == stripped(text@),
{
    let n = text.unicode_len();
    let mut out = String::new();
    let mut i: usize = 0;
    proof {
        reveal(Seq::filter);
        assert(text@.take(0) =~= Seq::<char>::empty());
    }
    while i < n
        invariant
            n == text@.len(),
            i <= n,
            out@ == stripped(text@.take(i as int)),
        decreases n - i,
    {
        let c = text.get_char(i);
        proof {
            assert(text@.take(i + 1) =~= text@.take(i as int).push(c));
            text@.take(i as int).lemma_filter_push(c, |c: char| !is_whitespace(c));
        }
        if !char_is_whitespace(c) {
            out.append(text.substring_char(i, i + 1));
            proof {
                assert(text@.subrange(i as int, i + 1) =~= seq![c]);
                assert(stripped(text@.take(i as int)) + seq![c] =~= stripped(
                    text@.take(i as int),
                ).push(c));
            }
        }
        i += 1;
    }
    proof {
        assert(text@.take(n as int) =~= text@);
    }
    out
}

/// Keeps the decimal digits of `text` and drops every other character.
pub fn extract_digits(text: &str) -> (out: String)
    ensures
        out@ == digits(text@),
{
    let n = text.unicode_len();
    let mut out = String::new();
    let mut i: usize = 0;
    proof {
        reveal(Seq::filter);
        assert(text@.take(0) =~= Seq::<char>::empty());
    }
    while i < n
        invariant
            n == text@.len(),
            i <= n,
            out@ == digits(text@.take(i as int)),
        decreases n - i,
    {
        let c = text.get_char(i);
        proof {
            assert(text@.take(i + 1) =~= text@.take(i as int).push(c));
            text@.take(i as int).lemma_filter_push(c, |c: char| is_digit(c));
        }
        if char_is_digit(c) {
            out.append(text.substring_char(i, i + 1));
            proof {
                assert(text@.subrange(i as int, i + 1) =~= seq![c]);
                assert(digits(text@.take(i as int)) + seq![c] =~= digits(
                    text@.take(i as int),
                ).push(c));
            }
        }
        i += 1;
    }
    proof {
        assert(text@.take(n as int) =~= text@);
    }
    out
}

/// `line` without the carriage return at its end, if it has one. This is the
/// rule of the file `depends`, for every line of it: the last line loses
/// its carriage return too, whether or not a line feed follows.
pub open spec fn without_cr(line: Seq<char>) -> Seq<char> {
    if line.len() > 0 && line.last() == '\r' {
        line.drop_last()
    } else {
        line
    }
}

/// The lines of `text` that are not empty, in order. Lines end at a line
/// feed or at the end of the text; a carriage return at the end of a line
/// does not belong to the line.
pub open spec fn nonempty_lines(text: Seq<char>) -> Seq<Seq<char>> {
    kept_lines(pieces(text, '\n'))
}

/// `parts` as lines, without those that are empty.
pub open spec fn kept_lines(parts: Seq<Seq<char>>) -> Seq<Seq<char>> {
    parts.map_values(|l: Seq<char>| without_cr(l)).filter(|l: Seq<char>| l.len() > 0)
}

/// The lines of `text` that are not empty.
pub fn lines(text: &str) -> (out: Vec<String>)
    ensures
        views(out@) == nonempty_lines(text@),
{
    let parts = split(text, '\n');
    let mut out: Vec<String> = Vec::new();
    let mut i: usize = 0;
    proof {
        reveal(Seq::filter);
        assert(views(parts@).take(0).map_values(|l: Seq<char>| without_cr(l)) =~= Seq::<
            Seq<char>,
        >::empty());
        assert(views(out@) =~= Seq::<Seq<char>>::empty());
    }
    while i < parts.len()
        invariant
            i <= parts.len(),
            views(out@) == kept_lines(views(parts@).take(i as int)),
        decreases parts.len() - i,
    {
        let part = parts[i].as_str();
        let n = part.unicode_len();
        let line = if n > 0 && part.get_char(n - 1) == '\r' {
            part.substring_char(0, n - 1)
        } else {
            part
        };
        proof {
            let before = views(parts@).take(i as int);
            let mapped = before.map_values(|l: Seq<char>| without_cr(l));
            assert(part@ == views(parts@)[i as int]);
            assert(line@ =~= without_cr(part@));
            assert(views(parts@).take(i + 1) =~= before.push(part@));
            assert(before.push(part@).map_values(|l: Seq<char>| without_cr(l)) =~= mapped.push(
                line@,
            ));
            mapped.lemma_filter_push(line@, |l: Seq<char>| l.len() > 0);
        }
        if line.unicode_len() > 0 {
            let kept = String::from_str(line);
            proof {
                lemma_views_push(out@, kept);
            }
            out.push(kept);
        }
        i += 1;
    }
    proof {
        assert(views(parts@).take(parts.len() as int) =~= views(parts@));
    }
    out
}

/// Why a text's digits are no number.
#[derive(Clone, Copy, Debug, PartialEq, Eq, Structural)]
pub enum NumberError {
    /// The text holds no digit.
    Empty,
    /// The digits say more than an `i32` holds.
    TooLarge,
}

/// The number that the decimal digits `digits` say.
pub open spec fn decimal(digits: Seq<char>) -> nat
    decreases digits.len(),
{
    if digits.len() == 0 {
        0
    } else {
        (decimal(digits.drop_last()) * 10 + (digits.last() as nat - '0' as nat)) as nat
    }
}

/// The number that the digits of `text` say, read as one decimal number.
pub open spec fn number(text: Seq<char>) -> Result<int, NumberError> {
    let d = digits(text);
    if d.len() == 0 {
        Err(NumberError::Empty)
    } else if decimal(d) > i32::MAX {
        Err(NumberError::TooLarge)
    } else {
        Ok(decimal(d) as int)
    }
}

/// More digits do not make a smaller number.
pub proof fn lemma_decimal_prefix(digits: Seq<char>, k: int)
    requires
        0 <= k <= digits.len(),
        forall|i: int| 0 <= i < digits.len() ==> is_digit(#[trigger] digits[i]),
    ensures
        decimal(digits.take(k)) <= decimal(digits),
    decreases digits.len() - k,
{
    if k < digits.len() {
        lemma_decimal_prefix(digits, k + 1);
        assert(digits.take(k + 1).drop_last() =~= digits.take(k));
        assert(digits.take(k + 1).last() == digits[k]);
    } else {
        assert(digits.take(k) =~= digits);
    }
}

/// Reads the digits of `text` as one decimal number.
pub fn parse_number(text: &str) -> (out: Result<i32, NumberError>)
    ensures
        match out {
            Ok(n) => number(text@) == Ok::<int, NumberError>(n as int),
            Err(e) => number(text@) == Err::<int, NumberError>(e),
        },
{
    let kept = extract_digits(text);
    let d = kept.as_str();
    let n = d.unicode_len();
    if n == 0 {
        return Err(NumberError::Empty);
    }
    proof {
        assert forall|i: int| 0 <= i < d@.len() implies is_digit(#[trigger] d@[i]) by {
            text@.lemma_filter_pred(|c: char| is_digit(c), i);
        }
        assert(d@.take(0) =~= Seq::<char>::empty());
    }
    let mut value: i64 = 0;
    let mut i: usize = 0;
    while i < n
        invariant
            n == d@.len(),
            n > 0,
            d@ == digits(text@),
            i <= n,
            forall|k: int| 0 <= k < d@.len() ==> is_digit(#[trigger] d@[k]),
            0 <= value <= i32::MAX,
            value == decimal(d@.take(i as int)),
        decreases n - i,
    {
        let c = d.get_char(i);
        proof {
            assert(is_digit(d@[i as int]));
            assert(d@.take(i + 1).drop_last() =~= d@.take(i as int));
            assert(d@.take(i + 1).last() == c);
        }
        let digit: i64 = (c as u32 - '0' as u32) as i64;
        let next: i64 = value * 10 + digit;
        assert(digit == c as nat - '0' as nat);
        assert(next == decimal(d@.take(i + 1)));
        if next > 2147483647 {
            proof {
                lemma_decimal_prefix(d@, i + 1);
            }
            return Err(NumberError::TooLarge);
        }
        value = next;
        i += 1;
    }
    proof {
        assert(d@.take(n as int) =~= d@);
    }
    Ok(value as i32)
}

/// `base` extended by `child` as one path: `child` alone where it starts at
/// the root, else `base`, a `/` unless `base` is empty or ends in one, and
/// `child`.
pub open spec fn joined(base: Seq<char>, child: Seq<char>) -> Seq<char> {
    if child.len() > 0 && child[0] == '/' {
        child
    } else if base.len() == 0 || base.last() == '/' {
        base + child
    } else {
        base + seq!['/'] + child
    }
}

/// Where `base` does not end in a `/` and `child` does not begin with one,
/// the path of `child` below `base` is `base`, a `/` and `child`.
pub proof fn lemma_joined_plain(base: Seq<char>, child: Seq<char>)
    requires
        base.len() > 0,
        base.last() != '/',
        child.len() == 0 || child[0] != '/',
    ensures
        joined(base, child) == base + seq!['/'] + child,
{
}

/// Extends the path `base` by `child`.
pub fn join(base: &str, child: &str) -> (out: String)
    ensures
        out@ == joined(base@, child@),
{
    let n = base.unicode_len();
    if child.unicode_len() > 0 && child.get_char(0) == '/' {
        String::from_str(child)
    } else if n == 0 || base.get_char(n - 1) == '/' {
        concat(base, child)
    } else {
        proof {
            reveal_strlit("/");
            assert("/"@ =~= seq!['/']);
        }
        let mut out = concat(base, "/");
        out.append(child);
        out
    }
}

/// The part of `path` after its last `/`; the whole of it where it has none.
pub open spec fn last_component(path: Seq<char>) -> Seq<char> {
    pieces(path, '/').last()
}

/// `path` without the `/`s at its end.
pub open spec fn trimmed(path: Seq<char>) -> Seq<char>
    decreases path.len(),
{
    if path.len() > 0 && path.last() == '/' {
        trimmed(path.drop_last())
    } else {
        path
    }
}

/// The name of what `path` names: its last component, with no regard to
/// `/`s at its end. The components `.` and `..` are names like any other.
pub open spec fn base_name(path: Seq<char>) -> Seq<char> {
    last_component(trimmed(path))
}

/// The directory that holds what `path` names: `path` without its last
/// component and the `/` before it; `/` for a name in the root; nothing
/// where `path` holds no `/`.
pub open spec fn above(path: Seq<char>) -> Seq<char> {
    let last = last_component(path);
    if last.len() >= path.len() {
        Seq::empty()
    } else if path.len() - last.len() == 1 {
        path.take(1)
    } else {
        path.take(path.len() - last.len() - 1)
    }
}

/// The last component of `path`.
pub fn file_name(path: &str) -> (out: String)
    ensures
        out@ == last_component(path@),
{
    let mut parts = split(path, '/');
    proof {
        lemma_pieces_nonempty(path@, '/');
    }
    let out = parts.pop().unwrap();
    out
}

/// Removes the `/`s at the end of `path`.
pub fn trim_slashes(path: &str) -> (out: String)
    ensures
        out@ == trimmed(path@),
{
    let n = path.unicode_len();
    let mut end: usize = n;
    proof {
        assert(path@.take(n as int) =~= path@);
    }
    while end > 0 && path.get_char(end - 1) == '/'
        invariant
            n == path@.len(),
            end <= n,
            trimmed(path@) == trimmed(path@.take(end as int)),
        decreases end,
    {
        proof {
            assert(path@.take(end as int).drop_last() =~= path@.take(end - 1));
        }
        end -= 1;
    }
    String::from_str(path.substring_char(0, end))
}

/// The name of what `path` names.
pub fn base(path: &str) -> (out: String)
    ensures
        out@ == base_name(path@),
{
    let plain = trim_slashes(path);
    file_name(plain.as_str())
}

/// The directory that holds what `path` names.
pub fn dir_of(path: &str) -> (out: String)
    ensures
        out@ == above(path@),
{
    let n = path.unicode_len();
    let name = file_name(path);
    let m = name.as_str().unicode_len();
    if m >= n {
        String::new()
    } else if n - m == 1 {
        String::from_str(path.substring_char(0, 1))
    } else {
        String::from_str(path.substring_char(0, n - m - 1))
    }
}

} // verus!
