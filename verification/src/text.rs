//! Searching, replacing and rendering text.

use vstd::prelude::*;
use vstd::string::*;

verus! {

/// `pattern` stands in `s` at position `i`.
pub open spec fn occurs_at<T>(s: Seq<T>, pattern: Seq<T>, i: int) -> bool {
    &&& 0 <= i
    &&& i + pattern.len() <= s.len()
    &&& s.subrange(i, i + pattern.len()) =~= pattern
}

/// `i` is the leftmost position at which `pattern` stands in `s`.
pub open spec fn is_first<T>(s: Seq<T>, pattern: Seq<T>, i: int) -> bool {
    &&& occurs_at(s, pattern, i)
    &&& forall|j: int| 0 <= j < i ==> !occurs_at(s, pattern, j)
}

/// `i` is the rightmost position at which `pattern` stands in `s`.
pub open spec fn is_last<T>(s: Seq<T>, pattern: Seq<T>, i: int) -> bool {
    &&& occurs_at(s, pattern, i)
    &&& forall|j: int| i < j ==> !occurs_at(s, pattern, j)
}

/// The leftmost position of `pattern` in `s`, if it stands there at all.
pub open spec fn first_index<T>(s: Seq<T>, pattern: Seq<T>) -> Option<int> {
    if exists|i: int| occurs_at(s, pattern, i) {
        Some(choose|i: int| is_first(s, pattern, i))
    } else {
        None
    }
}

/// The rightmost position of `pattern` in `s`, if it stands there at all.
pub open spec fn last_index<T>(s: Seq<T>, pattern: Seq<T>) -> Option<int> {
    if exists|i: int| occurs_at(s, pattern, i) {
        Some(choose|i: int| is_last(s, pattern, i))
    } else {
        None
    }
}

/// A leftmost position is what [`first_index`] gives.
pub proof fn lemma_first_index<T>(s: Seq<T>, pattern: Seq<T>, i: int)
    requires
        is_first(s, pattern, i),
    ensures
        first_index(s, pattern) == Some(i),
{
    let k = choose|k: int| is_first(s, pattern, k);
    assert(is_first(s, pattern, k));
    assert(occurs_at(s, pattern, k) && occurs_at(s, pattern, i));
}

/// A rightmost position is what [`last_index`] gives.
pub proof fn lemma_last_index<T>(s: Seq<T>, pattern: Seq<T>, i: int)
    requires
        is_last(s, pattern, i),
    ensures
        last_index(s, pattern) == Some(i),
{
    let k = choose|k: int| is_last(s, pattern, k);
    assert(is_last(s, pattern, k));
    assert(occurs_at(s, pattern, k) && occurs_at(s, pattern, i));
}

/// Where a pattern stands somewhere, it has a leftmost place.
pub proof fn lemma_first_exists<T>(s: Seq<T>, pattern: Seq<T>, i: int)
    requires
        occurs_at(s, pattern, i),
    ensures
        first_index(s, pattern) is Some,
        is_first(s, pattern, first_index(s, pattern)->0),
        first_index(s, pattern)->0 <= i,
    decreases i,
{
    if exists|j: int| 0 <= j < i && occurs_at(s, pattern, j) {
        let j = choose|j: int| 0 <= j < i && occurs_at(s, pattern, j);
        lemma_first_exists(s, pattern, j);
    } else {
        assert(is_first(s, pattern, i));
        lemma_first_index(s, pattern, i);
    }
}

/// Where a pattern stands somewhere, it has a rightmost place.
pub proof fn lemma_last_exists<T>(s: Seq<T>, pattern: Seq<T>, i: int)
    requires
        occurs_at(s, pattern, i),
    ensures
        last_index(s, pattern) is Some,
        is_last(s, pattern, last_index(s, pattern)->0),
        i <= last_index(s, pattern)->0,
    decreases s.len() - i,
{
    if exists|j: int| i < j && occurs_at(s, pattern, j) {
        let j = choose|j: int| i < j && occurs_at(s, pattern, j);
        lemma_last_exists(s, pattern, j);
    } else {
        assert(is_last(s, pattern, i));
        lemma_last_index(s, pattern, i);
    }
}

/// The number of characters before the first `/`, or all of them.
pub open spec fn segment_len(s: Seq<char>) -> int
    decreases s.len(),
{
    if s.len() == 0 || s[0] == '/' {
        0
    } else {
        1 + segment_len(s.skip(1))
    }
}

/// What stands before the first `/` of a path, or the whole path.
pub open spec fn first_segment(s: Seq<char>) -> Seq<char> {
    s.take(segment_len(s))
}

/// [`segment_len`] is the place of the first `/`.
pub proof fn lemma_segment_len(s: Seq<char>, n: int)
    requires
        0 <= n <= s.len(),
        n < s.len() ==> s[n] == '/',
        forall|j: int| 0 <= j < n ==> s[j] != '/',
    ensures
        segment_len(s) == n,
    decreases s.len(),
{
    if n > 0 {
        lemma_segment_len(s.skip(1), n - 1);
    }
}

/// A first segment holds no `/`, and a `/` or the end follows it.
pub proof fn lemma_first_segment(s: Seq<char>)
    ensures
        0 <= segment_len(s) <= s.len(),
        !first_segment(s).contains('/'),
        segment_len(s) < s.len() ==> s[segment_len(s)] == '/',
    decreases s.len(),
{
    if s.len() > 0 && s[0] != '/' {
        lemma_first_segment(s.skip(1));
        let n = segment_len(s);
        assert forall|j: int| 0 <= j < n implies s.take(n)[j] != '/' by {
            if j > 0 {
                let tail = first_segment(s.skip(1));
                assert(tail[j - 1] == s[j]);
                assert(tail.contains(tail[j - 1]));
            }
        }
    }
}

/// The characters of a text, in order.
pub fn chars_of(s: &str) -> (r: Vec<char>)
    ensures
        r@ == s@,
{
    let mut r: Vec<char> = Vec::new();
    for c in it: s.chars()
        invariant
            r@.len() == it.index(),
            it.seq() == s@,
            forall|i: int| 0 <= i < r@.len() ==> r@[i] == it.seq()[i],
    {
        r.push(c);
    }
    r
}

/// Whether two texts are the same.
pub fn same_text(a: &str, b: &str) -> (r: bool)
    ensures
        r == (a@ == b@),
{
    let x: Vec<char> = chars_of(a);
    let y: Vec<char> = chars_of(b);
    assert(x@.subrange(0, x@.len() as int) =~= x@);
    x.len() == y.len() && stands_at(&x, &y, 0)
}

/// Whether `pattern` stands in `s` at position `i`.
pub fn stands_at(s: &Vec<char>, pattern: &Vec<char>, i: usize) -> (r: bool)
    ensures
        r == occurs_at(s@, pattern@, i as int),
{
    if pattern.len() > s.len() || i > s.len() - pattern.len() {
        return false;
    }
    let mut k: usize = 0;
    while k < pattern.len()
        invariant
            k <= pattern.len(),
            i + pattern.len() <= s.len(),
            forall|j: int| 0 <= j < k ==> s@[i + j] == pattern@[j],
        decreases pattern.len() - k,
    {
        if s[i + k] != pattern[k] {
            assert(s@.subrange(i as int, i + pattern@.len())[k as int] != pattern@[k as int]);
            return false;
        }
        k += 1;
    }
    true
}

/// The leftmost position of `pattern` in `s`, if it stands there at all.
pub fn find_text(s: &Vec<char>, pattern: &Vec<char>) -> (r: Option<usize>)
    ensures
        match r {
            Some(i) => first_index(s@, pattern@) == Some(i as int) && is_first(
                s@,
                pattern@,
                i as int,
            ),
            None => first_index(s@, pattern@) is None,
        },
{
    if pattern.len() > s.len() {
        return None;
    }
    let last: usize = s.len() - pattern.len();
    let mut i: usize = 0;
    loop
        invariant
            last == s.len() - pattern.len(),
            i <= last,
            forall|j: int| 0 <= j < i ==> !occurs_at(s@, pattern@, j),
        decreases last - i,
    {
        if stands_at(s, pattern, i) {
            proof {
                lemma_first_index(s@, pattern@, i as int);
            }
            return Some(i);
        }
        if i == last {
            return None;
        }
        i += 1;
    }
}

/// The place of the first `/` at or behind `start`, or the end.
pub fn find_slash(s: &Vec<char>, start: usize) -> (r: usize)
    requires
        start <= s.len(),
    ensures
        start <= r <= s.len(),
        r - start == segment_len(s@.skip(start as int)),
        r < s.len() ==> s@[r as int] == '/',
        forall|j: int| start <= j < r ==> s@[j] != '/',
{
    let mut r: usize = start;
    while r < s.len() && s[r] != '/'
        invariant
            start <= r <= s.len(),
            forall|j: int| start <= j < r ==> s@[j] != '/',
        decreases s.len() - r,
    {
        r += 1;
    }
    proof {
        lemma_segment_len(s@.skip(start as int), r - start);
    }
    r
}

/// The text `s` in which `to` stands for each `from`. The search runs from the left and goes on
/// behind each match. An empty `from` is found before every character and at the end.
pub open spec fn replaced(s: Seq<char>, from: Seq<char>, to: Seq<char>) -> Seq<char>
    decreases s.len(),
{
    if from.len() == 0 {
        if s.len() == 0 {
            to
        } else {
            to + seq![s[0]] + replaced(s.skip(1), from, to)
        }
    } else if s.len() < from.len() {
        s
    } else if occurs_at(s, from, 0) {
        to + replaced(s.skip(from.len() as int), from, to)
    } else {
        seq![s[0]] + replaced(s.skip(1), from, to)
    }
}

/// Replacing a text by itself changes nothing.
pub proof fn lemma_replaced_by_itself(s: Seq<char>, from: Seq<char>)
    ensures
        replaced(s, from, from) == s,
    decreases s.len(),
{
    if from.len() == 0 {
        if s.len() > 0 {
            lemma_replaced_by_itself(s.skip(1), from);
        }
    } else if s.len() < from.len() {
    } else if occurs_at(s, from, 0) {
        lemma_replaced_by_itself(s.skip(from.len() as int), from);
        assert(s =~= s.subrange(0, from.len() as int) + s.skip(from.len() as int));
    } else {
        lemma_replaced_by_itself(s.skip(1), from);
    }
    assert(replaced(s, from, from) =~= s);
}

/// A text in which `from` does not stand is kept.
pub proof fn lemma_replaced_nothing(s: Seq<char>, from: Seq<char>, to: Seq<char>)
    requires
        from.len() > 0,
        forall|i: int| !occurs_at(s, from, i),
    ensures
        replaced(s, from, to) == s,
    decreases s.len(),
{
    if s.len() >= from.len() {
        assert(!occurs_at(s, from, 0));
        assert forall|i: int| !occurs_at(s.skip(1), from, i) by {
            if occurs_at(s.skip(1), from, i) {
                assert(s.subrange(i + 1, i + 1 + from.len()) =~= s.skip(1).subrange(
                    i,
                    i + from.len(),
                ));
                assert(occurs_at(s, from, i + 1));
            }
        }
        lemma_replaced_nothing(s.skip(1), from, to);
        assert(replaced(s, from, to) =~= s);
    }
}

/// Replacing a text without `/` works on both sides of a `/` on their own.
pub proof fn lemma_replaced_around_slash(
    before: Seq<char>,
    after: Seq<char>,
    from: Seq<char>,
    to: Seq<char>,
)
    requires
        from.len() > 0,
        !from.contains('/'),
    ensures
        replaced(before + seq!['/'] + after, from, to) == replaced(before, from, to) + seq!['/']
            + replaced(after, from, to),
    decreases before.len(),
{
    let s = before + seq!['/'] + after;
    let n = from.len() as int;
    let expected = replaced(before, from, to) + seq!['/'] + replaced(after, from, to);
    assert(from.contains(from[0]));
    if before.len() == 0 {
        assert(s.skip(1) =~= after);
        if s.len() >= n {
            assert(!occurs_at(s, from, 0)) by {
                if occurs_at(s, from, 0) {
                    assert(s.subrange(0, n)[0] == from[0]);
                }
            }
        }
        assert(replaced(s, from, to) =~= expected);
    } else if s.len() < n {
        assert(replaced(s, from, to) =~= expected);
    } else if occurs_at(s, from, 0) {
        assert(n <= before.len()) by {
            if n > before.len() {
                assert(s.subrange(0, n)[before.len() as int] == '/');
                assert(from.contains(from[before.len() as int]));
            }
        }
        assert(before.subrange(0, n) =~= s.subrange(0, n));
        assert(occurs_at(before, from, 0));
        lemma_replaced_around_slash(before.skip(n), after, from, to);
        assert(s.skip(n) =~= before.skip(n) + seq!['/'] + after);
        assert(replaced(s, from, to) =~= expected);
    } else {
        lemma_replaced_around_slash(before.skip(1), after, from, to);
        assert(s.skip(1) =~= before.skip(1) + seq!['/'] + after);
        if before.len() >= n {
            assert(before.subrange(0, n) =~= s.subrange(0, n));
            assert(!occurs_at(before, from, 0));
        }
        assert(replaced(s, from, to) =~= expected);
    }
}

/// Puts `to` in the place of each `from` in `s`.
pub fn replace(s: &str, from: &str, to: &str) -> (r: String)
    ensures
        r@ == replaced(s@, from@, to@),
{
    let chars: Vec<char> = chars_of(s);
    let pattern: Vec<char> = chars_of(from);
    let mut out: String = String::new();
    let mut i: usize = 0;
    assert(s@.skip(0) =~= s@);
    if pattern.len() == 0 {
        while i < chars.len()
            invariant
                i <= chars.len(),
                chars@ == s@,
                from@.len() == 0,
                out@ + replaced(s@.skip(i as int), from@, to@) =~= replaced(s@, from@, to@),
            decreases chars.len() - i,
        {
            out.append(to);
            out.append(s.substring_char(i, i + 1));
            assert(s@.skip(i as int).skip(1) =~= s@.skip(i + 1));
            assert(s@.subrange(i as int, i + 1) =~= seq![s@.skip(i as int)[0]]);
            i += 1;
        }
        out.append(to);
        return out;
    }
    let mut kept: usize = 0;
    while pattern.len() <= chars.len() - i
        invariant
            kept <= i <= chars.len(),
            chars@ == s@,
            pattern@ == from@,
            from@.len() > 0,
            out@ + s@.subrange(kept as int, i as int) + replaced(s@.skip(i as int), from@, to@)
                =~= replaced(s@, from@, to@),
        decreases chars.len() - i,
    {
        let ghost rest = s@.skip(i as int);
        if stands_at(&chars, &pattern, i) {
            assert(rest.subrange(0, from@.len() as int) =~= s@.subrange(i as int, i + from@.len()));
            assert(occurs_at(rest, from@, 0));
            out.append(s.substring_char(kept, i));
            out.append(to);
            assert(rest.skip(from@.len() as int) =~= s@.skip(i + from@.len()));
            i += pattern.len();
            kept = i;
        } else {
            assert(rest.subrange(0, from@.len() as int) =~= s@.subrange(i as int, i + from@.len()));
            assert(!occurs_at(rest, from@, 0));
            assert(rest.skip(1) =~= s@.skip(i + 1));
            assert(s@.subrange(kept as int, i + 1) =~= s@.subrange(kept as int, i as int)
                + seq![rest[0]]);
            i += 1;
        }
    }
    out.append(s.substring_char(kept, chars.len()));
    assert(s@.subrange(kept as int, s@.len() as int) =~= s@.subrange(kept as int, i as int)
        + s@.skip(i as int));
    out
}

/// A character's code, that of the small letter where it is an ASCII capital.
pub open spec fn lower_code(c: char) -> int {
    if 'A' <= c <= 'Z' {
        c as int + 32
    } else {
        c as int
    }
}

/// Two texts are the same but for the case of ASCII letters.
pub open spec fn same_ignoring_case(a: Seq<char>, b: Seq<char>) -> bool {
    &&& a.len() == b.len()
    &&& forall|i: int| 0 <= i < a.len() ==> lower_code(#[trigger] a[i]) == lower_code(b[i])
}

/// A character's code, that of the small letter where it is an ASCII capital.
fn char_lower_code(c: char) -> (r: u32)
    ensures
        r == lower_code(c),
{
    if 'A' <= c && c <= 'Z' {
        c as u32 + 32
    } else {
        c as u32
    }
}

/// Whether two texts are the same but for the case of ASCII letters.
pub fn matches_ignoring_case(a: &str, b: &str) -> (r: bool)
    ensures
        r == same_ignoring_case(a@, b@),
{
    let x: Vec<char> = chars_of(a);
    let y: Vec<char> = chars_of(b);
    if x.len() != y.len() {
        return false;
    }
    let mut i: usize = 0;
    while i < x.len()
        invariant
            i <= x.len(),
            x.len() == y.len(),
            x@ == a@,
            y@ == b@,
            forall|j: int| 0 <= j < i ==> lower_code(#[trigger] a@[j]) == lower_code(b@[j]),
        decreases x.len() - i,
    {
        if char_lower_code(x[i]) != char_lower_code(y[i]) {
            assert(lower_code(a@[i as int]) != lower_code(b@[i as int]));
            return false;
        }
        i += 1;
    }
    true
}

/// The digit for a value below ten.
pub open spec fn digit(d: nat) -> char {
    (48 + d) as char
}

/// A number in decimal digits, without leading zeros.
pub open spec fn decimal(n: nat) -> Seq<char>
    decreases n,
{
    if n < 10 {
        seq![digit(n)]
    } else {
        decimal(n / 10).push(digit(n % 10))
    }
}

/// The text of one digit.
fn digit_text(d: u64) -> (r: &'static str)
    requires
        d < 10,
    ensures
        r@ == seq![digit(d as nat)],
{
    proof {
        reveal_strlit("0");
        reveal_strlit("1");
        reveal_strlit("2");
        reveal_strlit("3");
        reveal_strlit("4");
        reveal_strlit("5");
        reveal_strlit("6");
        reveal_strlit("7");
        reveal_strlit("8");
        reveal_strlit("9");
    }
    let r: &'static str = match d {
        0 => "0",
        1 => "1",
        2 => "2",
        3 => "3",
        4 => "4",
        5 => "5",
        6 => "6",
        7 => "7",
        8 => "8",
        _ => "9",
    };
    assert(r@ =~= seq![digit(d as nat)]);
    r
}

/// Renders a number in decimal digits.
pub fn decimal_text(n: u64) -> (r: String)
    ensures
        r@ == decimal(n as nat),
    decreases n,
{
    if n < 10 {
        digit_text(n).to_owned()
    } else {
        let mut r: String = decimal_text(n / 10);
        r.append(digit_text(n % 10));
        assert(r@ =~= decimal((n / 10) as nat).push(digit((n % 10) as nat)));
        r
    }
}

/// A text moved to the right end of a field of `width` characters, or the text where it is wider.
pub open spec fn aligned_right(s: Seq<char>, width: nat) -> Seq<char> {
    if s.len() < width {
        Seq::new((width - s.len()) as nat, |i: int| ' ') + s
    } else {
        s
    }
}

/// Moves a text to the right end of a field of `width` characters.
pub fn align_right(s: &str, width: usize) -> (r: String)
    ensures
        r@ == aligned_right(s@, width as nat),
{
    let len: usize = s.unicode_len();
    let mut r: String = String::new();
    let mut i: usize = len;
    proof {
        reveal_strlit(" ");
    }
    while i < width
        invariant
            len == s@.len(),
            len <= i,
            i <= width || i == len,
            " "@ =~= seq![' '],
            r@ =~= Seq::new((i - len) as nat, |k: int| ' '),
        decreases width - i,
    {
        r.append(" ");
        i += 1;
    }
    r.append(s);
    assert(r@ =~= aligned_right(s@, width as nat));
    r
}

/// The value of a run of decimal digits.
pub open spec fn digits_value(s: Seq<char>) -> nat
    decreases s.len(),
{
    if s.len() == 0 {
        0
    } else {
        digits_value(s.drop_last()) * 10 + (s.last() as int - 48) as nat
    }
}

/// A non-empty run of the characters `0` to `9`.
pub open spec fn all_digits(s: Seq<char>) -> bool {
    &&& s.len() > 0
    &&& forall|i: int| 0 <= i < s.len() ==> '0' <= #[trigger] s[i] <= '9'
}

/// The number that a text writes: decimal digits, with or without one leading `+`, whose value
/// is at most `max`.
pub open spec fn number_up_to(s: Seq<char>, max: nat) -> Option<nat> {
    let digits = if s.len() > 0 && s[0] == '+' {
        s.skip(1)
    } else {
        s
    };
    if all_digits(digits) && digits_value(digits) <= max {
        Some(digits_value(digits))
    } else {
        None
    }
}

/// The number that a text writes, where it fits in a `usize`.
pub open spec fn number_of(s: Seq<char>) -> Option<nat> {
    number_up_to(s, usize::MAX as nat)
}

/// More digits never write a smaller number.
proof fn lemma_digits_value_grows(s: Seq<char>, n: int)
    requires
        all_digits(s),
        0 <= n <= s.len(),
    ensures
        digits_value(s.take(n)) <= digits_value(s),
    decreases s.len(),
{
    if n == s.len() {
        assert(s.take(n) =~= s);
    } else if s.len() == 1 {
    } else {
        assert(all_digits(s.drop_last())) by {
            assert forall|i: int| 0 <= i < s.drop_last().len() implies '0' <= #[trigger] s.drop_last()[i] <= '9' by {
                assert(s.drop_last()[i] == s[i]);
            }
        }
        lemma_digits_value_grows(s.drop_last(), n);
        assert(s.drop_last().take(n) =~= s.take(n));
    }
}

/// Reads a number as [`number_up_to`] says.
pub fn read_number_up_to(s: &str, max: u64) -> (r: Option<u64>)
    ensures
        match r {
            Some(n) => number_up_to(s@, max as nat) == Some(n as nat),
            None => number_up_to(s@, max as nat) is None,
        },
{
    let chars: Vec<char> = chars_of(s);
    let start: usize = if chars.len() > 0 && chars[0] == '+' {
        1
    } else {
        0
    };
    let ghost digits = if s@.len() > 0 && s@[0] == '+' {
        s@.skip(1)
    } else {
        s@
    };
    assert(digits =~= s@.skip(start as int));
    if start == chars.len() {
        return None;
    }
    let mut n: u64 = 0;
    let mut i: usize = start;
    assert(digits.take(0) =~= Seq::<char>::empty());
    while i < chars.len()
        invariant
            start <= i <= chars.len(),
            chars@ == s@,
            digits == s@.skip(start as int),
            digits == (if s@.len() > 0 && s@[0] == '+' {
                s@.skip(1)
            } else {
                s@
            }),
            n == digits_value(digits.take(i - start)),
            n <= max,
            forall|j: int| 0 <= j < i - start ==> '0' <= #[trigger] digits[j] <= '9',
        decreases chars.len() - i,
    {
        let c: char = chars[i];
        let ghost k = i - start;
        assert(digits[k] == c);
        if c < '0' || c > '9' {
            return None;
        }
        let d: u64 = (c as u32 - 48) as u64;
        assert(digits.take(k + 1).drop_last() =~= digits.take(k));
        assert(digits_value(digits.take(k + 1)) == n * 10 + d);
        if d > max || n > (max - d) / 10 {
            proof {
                if all_digits(digits) {
                    lemma_digits_value_grows(digits, k + 1);
                }
            }
            return None;
        }
        n = n * 10 + d;
        i += 1;
    }
    assert(digits.take(digits.len() as int) =~= digits);
    Some(n)
}

/// Reads a number as [`number_of`] says.
pub fn read_number(s: &str) -> (r: Option<usize>)
    ensures
        match r {
            Some(n) => number_of(s@) == Some(n as nat),
            None => number_of(s@) is None,
        },
{
    match read_number_up_to(s, usize::MAX as u64) {
        Some(n) => Some(n as usize),
        None => None,
    }
}

/// What [`find_text`] finds is the leftmost place: the pattern stands there, and at no place before
/// it. Where it finds nothing, the pattern stands nowhere.
pub proof fn law_leftmost_place_is_found(s: &Vec<char>, pattern: &Vec<char>, r: Option<usize>)
    requires
        call_ensures(find_text, (s, pattern), r),
    ensures
        match r {
            Some(i) => {
                &&& i + pattern@.len() <= s@.len()
                &&& s@.subrange(i as int, i + pattern@.len()) == pattern@
                &&& forall|j: int|
                    0 <= j < i ==> #[trigger] s@.subrange(j, j + pattern@.len()) != pattern@
            },
            None => forall|j: int|
                0 <= j <= s@.len() - pattern@.len() ==> #[trigger] s@.subrange(
                    j,
                    j + pattern@.len(),
                ) != pattern@,
        },
{
    assert forall|j: int|
        0 <= j <= s@.len() - pattern@.len() && #[trigger] s@.subrange(j, j + pattern@.len())
            == pattern@ implies occurs_at(s@, pattern@, j) by {}
}

/// The leftmost place is what [`first_index`] gives, stated over the elements.
pub proof fn lemma_first_place<T>(s: Seq<T>, pattern: Seq<T>, i: int)
    requires
        0 <= i,
        i + pattern.len() <= s.len(),
        s.subrange(i, i + pattern.len()) == pattern,
        forall|j: int| 0 <= j < i ==> #[trigger] s.subrange(j, j + pattern.len()) != pattern,
    ensures
        first_index(s, pattern) == Some(i),
{
    assert forall|j: int| 0 <= j < i implies !occurs_at(s, pattern, j) by {
        assert(s.subrange(j, j + pattern.len()) != pattern);
    }
    lemma_first_index(s, pattern, i);
}

/// Where no part of a text is the pattern, there is no leftmost place.
pub proof fn lemma_no_place<T>(s: Seq<T>, pattern: Seq<T>)
    requires
        forall|j: int|
            0 <= j <= s.len() - pattern.len() ==> #[trigger] s.subrange(j, j + pattern.len())
                != pattern,
    ensures
        first_index(s, pattern) is None,
        last_index(s, pattern) is None,
        forall|j: int| !occurs_at(s, pattern, j),
{
    assert forall|j: int| !occurs_at(s, pattern, j) by {
        if occurs_at(s, pattern, j) {
            assert(s.subrange(j, j + pattern.len()) == pattern);
        }
    }
}

/// Two texts match exactly where they have the same length and, place by place, the same character
/// or the capital and the small form of the same ASCII letter.
pub proof fn law_match_ignores_the_case_of_letters_alone(a: &str, b: &str, r: bool)
    requires
        call_ensures(matches_ignoring_case, (a, b), r),
    ensures
        r <==> a@.len() == b@.len() && forall|i: int|
            0 <= i < a@.len() ==> {
                ||| #[trigger] a@[i] == b@[i]
                ||| 'A' <= a@[i] <= 'Z' && b@[i] as int == a@[i] as int + 32
                ||| 'A' <= b@[i] <= 'Z' && a@[i] as int == b@[i] as int + 32
            },
{
    if a@.len() == b@.len() {
        assert forall|i: int| 0 <= i < a@.len() implies (lower_code(#[trigger] a@[i]) == lower_code(
            b@[i],
        ) <==> {
            ||| a@[i] == b@[i]
            ||| 'A' <= a@[i] <= 'Z' && b@[i] as int == a@[i] as int + 32
            ||| 'A' <= b@[i] <= 'Z' && a@[i] as int == b@[i] as int + 32
        }) by {
            lemma_same_lower_code(a@[i], b@[i]);
        }
    }
}

/// Two characters have the same code for the small letter exactly where they are the same or the
/// two forms of one ASCII letter.
proof fn lemma_same_lower_code(a: char, b: char)
    ensures
        lower_code(a) == lower_code(b) <==> {
            ||| a == b
            ||| 'A' <= a <= 'Z' && b as int == a as int + 32
            ||| 'A' <= b <= 'Z' && a as int == b as int + 32
        },
{
    assert(a as u32 == b as u32 ==> a == b);
}

/// A character has the code of a small letter exactly where it is that letter or its capital.
proof fn lemma_same_letter(c: char, small: char, capital: char)
    requires
        'a' <= small <= 'z',
        capital as int == small as int - 32,
    ensures
        lower_code(c) == lower_code(small) <==> c == small || c == capital,
{
    lemma_same_lower_code(c, small);
    assert(c as u32 == capital as u32 ==> c == capital);
}

/// A text matches a word exactly where each of its characters is that of the word in small or in
/// capital letters.
pub proof fn lemma_spelled(s: Seq<char>, small: Seq<char>, capital: Seq<char>)
    requires
        capital.len() == small.len(),
        forall|i: int|
            0 <= i < small.len() ==> 'a' <= #[trigger] small[i] <= 'z' && capital[i] as int
                == small[i] as int - 32,
    ensures
        same_ignoring_case(s, small) <==> s.len() == small.len() && forall|i: int|
            0 <= i < s.len() ==> #[trigger] s[i] == small[i] || s[i] == capital[i],
{
    if s.len() == small.len() {
        assert forall|i: int| 0 <= i < s.len() implies (lower_code(#[trigger] s[i]) == lower_code(
            small[i],
        ) <==> s[i] == small[i] || s[i] == capital[i]) by {
            assert('a' <= small[i] <= 'z');
            lemma_same_letter(s[i], small[i], capital[i]);
        }
    }
}

/// What stands before the first `/` is the first segment.
pub proof fn lemma_segment_of_joined(first: Seq<char>, rest: Seq<char>)
    requires
        !first.contains('/'),
        rest.len() > 0 ==> rest[0] == '/',
    ensures
        segment_len(first + rest) == first.len(),
        first_segment(first + rest) == first,
{
    let s = first + rest;
    assert forall|j: int| 0 <= j < first.len() implies s[j] != '/' by {
        assert(first.contains(first[j]));
    }
    lemma_segment_len(s, first.len() as int);
    assert(s.take(first.len() as int) =~= first);
}

/// Replacing puts `to` in the place of the leftmost `from`, keeps what stands before it, and goes
/// on behind it.
pub proof fn lemma_replaced_first(
    before: Seq<char>,
    rest: Seq<char>,
    from: Seq<char>,
    to: Seq<char>,
)
    requires
        from.len() > 0,
        forall|j: int|
            0 <= j < before.len() ==> #[trigger] (before + from + rest).subrange(
                j,
                j + from.len(),
            ) != from,
    ensures
        replaced(before + from + rest, from, to) == before + to + replaced(rest, from, to),
    decreases before.len(),
{
    let s = before + from + rest;
    let n = from.len() as int;
    if before.len() == 0 {
        assert(s.subrange(0, n) =~= from);
        assert(s.skip(n) =~= rest);
        assert(before + to + replaced(rest, from, to) =~= to + replaced(rest, from, to));
    } else {
        assert((before + from + rest).subrange(0, 0int + from.len()) != from);
        let later = before.skip(1);
        let tail = later + from + rest;
        assert(s.skip(1) =~= tail);
        assert forall|j: int| 0 <= j < later.len() implies #[trigger] tail.subrange(j, j + n)
            != from by {
            assert(tail.subrange(j, j + n) =~= s.subrange(j + 1, j + 1 + n));
        }
        lemma_replaced_first(later, rest, from, to);
        assert(replaced(s, from, to) =~= before + to + replaced(rest, from, to));
    }
}

/// Replacing by an empty pattern works on two parts of a text on their own, but for the `to` that
/// stands once between them.
proof fn lemma_replaced_empty_joins(a: Seq<char>, b: Seq<char>, to: Seq<char>)
    ensures
        replaced(a + b, Seq::empty(), to) == replaced(a, Seq::empty(), to) + replaced(
            b,
            Seq::empty(),
            to,
        ).skip(to.len() as int),
        replaced(b, Seq::empty(), to).len() >= to.len(),
        replaced(b, Seq::empty(), to).take(to.len() as int) == to,
    decreases a.len(),
{
    let none = Seq::<char>::empty();
    let y = replaced(b, none, to);
    if b.len() == 0 {
        assert(y.take(to.len() as int) =~= to);
    } else {
        assert(y.take(to.len() as int) =~= to);
    }
    if a.len() == 0 {
        assert(a + b =~= b);
        assert(y =~= to + y.skip(to.len() as int));
    } else {
        lemma_replaced_empty_joins(a.skip(1), b, to);
        assert((a + b).skip(1) =~= a.skip(1) + b);
        assert(replaced(a + b, none, to) =~= replaced(a, none, to) + y.skip(to.len() as int));
    }
}

/// [`replace`] keeps a text in which the pattern stands nowhere. Where the pattern stands
/// somewhere, it keeps what stands before the leftmost place, puts `to` there, and does with the
/// rest what it does with the rest alone.
pub proof fn law_replace_from_the_left(
    s: &str,
    from: &str,
    to: &str,
    r: String,
    before: Seq<char>,
    rest: &str,
    rest_r: String,
)
    requires
        call_ensures(replace, (s, from, to), r),
        call_ensures(replace, (rest, from, to), rest_r),
        from@.len() > 0,
    ensures
        (forall|j: int|
            0 <= j <= s@.len() - from@.len() ==> #[trigger] s@.subrange(j, j + from@.len())
                != from@) ==> r@ == s@,
        s@ == before + from@ + rest@ && (forall|j: int|
            0 <= j < before.len() ==> #[trigger] s@.subrange(j, j + from@.len()) != from@) ==> r@
            == before + to@ + rest_r@,
{
    if forall|j: int|
        0 <= j <= s@.len() - from@.len() ==> #[trigger] s@.subrange(j, j + from@.len()) != from@ {
        lemma_no_place(s@, from@);
        lemma_replaced_nothing(s@, from@, to@);
    }
    if s@ == before + from@ + rest@ && forall|j: int|
        0 <= j < before.len() ==> #[trigger] s@.subrange(j, j + from@.len()) != from@ {
        lemma_replaced_first(before, rest@, from@, to@);
    }
}

/// An empty pattern is found at both ends of a text and between any two characters, once each.
pub proof fn law_replace_of_nothing(
    a: &str,
    b: &str,
    both: &str,
    from: &str,
    to: &str,
    a_r: String,
    b_r: String,
    both_r: String,
)
    requires
        from@.len() == 0,
        both@ == a@ + b@,
        call_ensures(replace, (a, from, to), a_r),
        call_ensures(replace, (b, from, to), b_r),
        call_ensures(replace, (both, from, to), both_r),
    ensures
        a@.len() == 0 ==> a_r@ == to@,
        a@.len() == 1 ==> a_r@ == to@ + a@ + to@,
        both_r@ == a_r@ + b_r@.skip(to@.len() as int),
{
    assert(from@ =~= Seq::empty());
    lemma_replaced_empty_joins(a@, b@, to@);
    if a@.len() == 1 {
        reveal_with_fuel(replaced, 2);
        assert(a@ =~= seq![a@[0]]);
    }
}

/// A number that is rendered in digits has that value, is made of digits, and has no zero in front.
pub proof fn lemma_decimal(n: nat)
    ensures
        all_digits(decimal(n)),
        digits_value(decimal(n)) == n,
        n > 0 ==> decimal(n)[0] != '0',
        n == 0 ==> decimal(n) == seq!['0'],
    decreases n,
{
    let s = decimal(n);
    if n < 10 {
        reveal_with_fuel(digits_value, 2);
        assert(s.drop_last() =~= Seq::<char>::empty());
        assert(digit(n) as int == 48 + n);
        if n == 0 {
            assert(digit(0) == '0');
        } else {
            assert(digit(n) as u32 != '0' as u32);
        }
    } else {
        lemma_decimal(n / 10);
        let d = digit(n % 10);
        assert(d as int == 48 + n % 10);
        assert(s.drop_last() =~= decimal(n / 10));
        assert(s[0] == decimal(n / 10)[0]);
        assert forall|i: int| 0 <= i < s.len() implies '0' <= #[trigger] s[i] <= '9' by {
            if i < s.len() - 1 {
                assert(s[i] == decimal(n / 10)[i]);
            }
        }
    }
}

/// A number that is rendered reads back as itself, up to the largest that is asked for.
pub proof fn lemma_decimal_reads_back(n: nat, max: nat)
    ensures
        number_up_to(decimal(n), max) == (if n <= max {
            Some(n)
        } else {
            None
        }),
{
    lemma_decimal(n);
    assert('0' <= decimal(n)[0] <= '9');
}

/// A number is rendered in digits alone, without a zero in front of others, and what was rendered
/// reads back as the number, where it is not above the largest that is asked for.
pub proof fn law_rendered_number_reads_back(
    n: u64,
    rendered: String,
    text: &str,
    max: u64,
    back: Option<u64>,
)
    requires
        call_ensures(decimal_text, (n,), rendered),
        text@ == rendered@,
        call_ensures(read_number_up_to, (text, max), back),
    ensures
        rendered@.len() > 0,
        forall|i: int| 0 <= i < rendered@.len() ==> '0' <= #[trigger] rendered@[i] <= '9',
        rendered@[0] == '0' ==> rendered@.len() == 1,
        back == (if n <= max {
            Some(n)
        } else {
            None
        }),
{
    lemma_decimal(n as nat);
    lemma_decimal_reads_back(n as nat, max as nat);
}

/// What is read as a number: one digit has its own value, a further digit makes ten times as much
/// and its value, a leading `+` changes nothing, and a text with anything else in it is no number.
pub proof fn law_number_is_read_digit_by_digit(
    text: &str,
    shorter: &str,
    c: char,
    max: u64,
    r: Option<u64>,
    shorter_r: Option<u64>,
)
    requires
        call_ensures(read_number_up_to, (text, max), r),
        call_ensures(read_number_up_to, (shorter, u64::MAX), shorter_r),
    ensures
        text@ == seq![c] ==> r == (if '0' <= c <= '9' && c as int - 48 <= max {
            Some((c as int - 48) as u64)
        } else {
            None
        }),
        text@ == shorter@ + seq![c] && shorter_r is Some ==> r == (if '0' <= c <= '9' && shorter_r->0
            * 10 + (c as int - 48) <= max {
            Some((shorter_r->0 * 10 + (c as int - 48)) as u64)
        } else {
            None
        }),
        max == u64::MAX && text@ == seq!['+'] + shorter@ && shorter@.len() > 0 && shorter@[0] != '+'
            ==> r == shorter_r,
        r matches Some(n) ==> n <= max,
        text@.len() == 0 ==> r is None,
        (exists|i: int|
            0 < i < text@.len() && !('0' <= #[trigger] text@[i] <= '9')) ==> r is None,
        text@.len() > 0 && text@[0] != '+' && !('0' <= text@[0] <= '9') ==> r is None,
{
    if text@ == seq![c] {
        reveal_with_fuel(digits_value, 2);
        assert(text@.drop_last() =~= Seq::<char>::empty());
        assert(text@[0] == c);
    }
    if text@ == shorter@ + seq![c] && shorter_r is Some {
        lemma_number_goes_on(shorter@, c, max as nat);
    }
    if text@ == seq!['+'] + shorter@ {
        assert(text@.skip(1) =~= shorter@);
    }
    if exists|i: int| 0 < i < text@.len() && !('0' <= #[trigger] text@[i] <= '9') {
        let i = choose|i: int| 0 < i < text@.len() && !('0' <= #[trigger] text@[i] <= '9');
        if text@[0] == '+' {
            assert(text@.skip(1)[i - 1] == text@[i]);
        }
    }
}

/// A further digit makes ten times as much and its value.
proof fn lemma_number_goes_on(s: Seq<char>, c: char, max: nat)
    requires
        number_up_to(s, u64::MAX as nat) is Some,
    ensures
        number_up_to(s + seq![c], max) == ({
            let value = number_up_to(s, u64::MAX as nat)->0 * 10 + (c as int - 48);
            if '0' <= c <= '9' && value <= max {
                Some(value as nat)
            } else {
                None
            }
        }),
{
    let all = s + seq![c];
    let digits = if s[0] == '+' {
        s.skip(1)
    } else {
        s
    };
    let all_of_them = digits + seq![c];
    assert(all[0] == s[0]);
    assert(all.skip(1) =~= s.skip(1) + seq![c]);
    assert(all_of_them.drop_last() =~= digits);
    assert(all_of_them.last() == c);
    assert(all_digits(all_of_them) <==> '0' <= c <= '9') by {
        if '0' <= c <= '9' {
            assert forall|i: int| 0 <= i < all_of_them.len() implies '0'
                <= #[trigger] all_of_them[i] <= '9' by {
                if i < digits.len() {
                    assert(all_of_them[i] == digits[i]);
                }
            }
        } else {
            assert(all_of_them[digits.len() as int] == c);
        }
    }
}

/// A text that is moved to the right end of a field stands there whole, and spaces fill the field
/// up to its width; a wider text stays as it is.
pub proof fn law_field_ends_with_the_text(s: &str, width: usize, r: String)
    requires
        call_ensures(align_right, (s, width), r),
    ensures
        r@.len() == (if s@.len() < width {
            width as nat
        } else {
            s@.len()
        }),
        r@.skip(r@.len() - s@.len()) == s@,
        forall|i: int| 0 <= i < r@.len() - s@.len() ==> #[trigger] r@[i] == ' ',
{
    assert(r@.skip(r@.len() - s@.len()) =~= s@);
}

/// The texts of two numbers, each followed by something that starts with no digit, are the same
/// only where the numbers are, and what follows.
pub proof fn lemma_number_ends_where_digits_end(
    a: nat,
    a_rest: Seq<char>,
    b: nat,
    b_rest: Seq<char>,
)
    requires
        a_rest.len() > 0,
        b_rest.len() > 0,
        !('0' <= a_rest[0] <= '9'),
        !('0' <= b_rest[0] <= '9'),
        decimal(a) + a_rest == decimal(b) + b_rest,
    ensures
        a == b,
        a_rest == b_rest,
{
    lemma_decimal(a);
    lemma_decimal(b);
    let x = decimal(a);
    let y = decimal(b);
    assert(x.len() == y.len()) by {
        if x.len() < y.len() {
            assert((x + a_rest)[x.len() as int] == a_rest[0]);
            assert((y + b_rest)[x.len() as int] == y[x.len() as int]);
        }
        if y.len() < x.len() {
            assert((y + b_rest)[y.len() as int] == b_rest[0]);
            assert((x + a_rest)[y.len() as int] == x[y.len() as int]);
        }
    }
    assert(x =~= (x + a_rest).take(x.len() as int));
    assert(y =~= (y + b_rest).take(y.len() as int));
    assert(a_rest =~= (x + a_rest).skip(x.len() as int));
    assert(b_rest =~= (y + b_rest).skip(y.len() as int));
}

/// A number is read into a `usize` as it is read into a `u64`, where it fits.
pub proof fn law_number_fits(text: &str, r: Option<usize>, wide: Option<u64>)
    requires
        call_ensures(read_number, (text,), r),
        call_ensures(read_number_up_to, (text, usize::MAX as u64), wide),
    ensures
        match (r, wide) {
            (Some(n), Some(m)) => n == m,
            (None, None) => true,
            _ => false,
        },
{
}

} // verus!
