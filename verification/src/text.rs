//! Functions on text. The model of a string is its sequence of characters.
use vstd::prelude::*;

verus! {

broadcast use vstd::string::group_string_axioms;

/// The texts of a sequence of strings.
pub open spec fn texts(strings: Seq<String>) -> Seq<Seq<char>> {
    strings.map_values(|s: String| s@)
}

/// `pattern` stands in `s` at position `at`.
pub open spec fn occurs_at(s: Seq<char>, pattern: Seq<char>, at: int) -> bool {
    0 <= at && at + pattern.len() <= s.len() && s.subrange(at, at + pattern.len()) == pattern
}

/// `pattern` stands somewhere in `s`.
pub open spec fn occurs_in(s: Seq<char>, pattern: Seq<char>) -> bool {
    exists|at: int| occurs_at(s, pattern, at)
}

/// The characters of `s`.
pub fn chars_of(s: &str) -> (chars: Vec<char>)
    ensures
        chars@ == s@,
{
    let mut chars: Vec<char> = Vec::new();
    for c in it: s.chars()
        invariant
            it.seq() == s@,
            chars@ == s@.take(it.index()),
    {
        chars.push(c);
    }
    chars
}

/// `pattern` stands in `s` at position `at`.
pub fn matches_at(s: &Vec<char>, pattern: &Vec<char>, at: usize) -> (found: bool)
    ensures
        found == occurs_at(s@, pattern@, at as int),
{
    if pattern.len() > s.len() || at > s.len() - pattern.len() {
        return false;
    }
    let mut i: usize = 0;
    while i < pattern.len()
        invariant
            i <= pattern.len(),
            at + pattern.len() <= s.len(),
            forall|j: int| 0 <= j < i ==> s[at + j] == #[trigger] pattern[j],
        decreases pattern.len() - i,
    {
        if s[at + i] != pattern[i] {
            assert(s@.subrange(at as int, at + pattern.len())[i as int] != pattern[i as int]);
            return false;
        }
        i += 1;
    }
    assert(s@.subrange(at as int, at + pattern.len()) =~= pattern@);
    true
}

/// Whether `s` starts with `prefix`.
pub fn has_prefix(s: &str, prefix: &str) -> (found: bool)
    ensures
        found == prefix@.is_prefix_of(s@),
{
    matches_at(&chars_of(s), &chars_of(prefix), 0)
}

/// Whether `s` ends with `suffix`.
pub fn has_suffix(s: &str, suffix: &str) -> (found: bool)
    ensures
        found == suffix@.is_suffix_of(s@),
{
    let text = chars_of(s);
    let pattern = chars_of(suffix);
    if pattern.len() > text.len() {
        return false;
    }
    matches_at(&text, &pattern, text.len() - pattern.len())
}

/// Whether `pattern` stands somewhere in `s`.
pub fn has_infix(s: &str, pattern: &str) -> (found: bool)
    ensures
        found == occurs_in(s@, pattern@),
{
    let text = chars_of(s);
    let sought = chars_of(pattern);
    let mut at: usize = 0;
    loop
        invariant
            text@ == s@,
            sought@ == pattern@,
            at <= text.len(),
            forall|j: int| 0 <= j < at ==> !occurs_at(s@, pattern@, j),
        decreases text.len() - at,
    {
        if matches_at(&text, &sought, at) {
            return true;
        }
        if at == text.len() {
            return false;
        }
        at += 1;
    }
}

/// Whether the texts hold this one.
pub fn holds(found: &Vec<String>, sought: &String) -> (r: bool)
    ensures
        r == texts(found@).contains(sought@),
{
    let mut i: usize = 0;
    while i < found.len()
        invariant
            i <= found.len(),
            forall|j: int| 0 <= j < i ==> texts(found@)[j] != sought@,
        decreases found.len() - i,
    {
        if found[i] == *sought {
            assert(texts(found@)[i as int] == sought@);
            return true;
        }
        i += 1;
    }
    false
}

/// The characters with the Unicode property `White_Space`.
pub open spec fn is_space(c: char) -> bool {
    ||| '\u{9}' <= c <= '\u{d}'
    ||| c == ' '
    ||| c == '\u{85}'
    ||| c == '\u{a0}'
    ||| c == '\u{1680}'
    ||| '\u{2000}' <= c <= '\u{200a}'
    ||| c == '\u{2028}'
    ||| c == '\u{2029}'
    ||| c == '\u{202f}'
    ||| c == '\u{205f}'
    ||| c == '\u{3000}'
}

fn space(c: char) -> (found: bool)
    ensures
        found == is_space(c),
{
    ('\u{9}' <= c && c <= '\u{d}') || c == ' ' || c == '\u{85}' || c == '\u{a0}' || c == '\u{1680}'
        || ('\u{2000}' <= c && c <= '\u{200a}') || c == '\u{2028}' || c == '\u{2029}'
        || c == '\u{202f}' || c == '\u{205f}' || c == '\u{3000}'
}

/// How many characters at the start of `s` are not white space, up to the first that is.
pub open spec fn word_len(s: Seq<char>) -> nat
    decreases s.len(),
{
    if s.len() == 0 || is_space(s[0]) {
        0
    } else {
        1 + word_len(s.skip(1))
    }
}

/// The words of `s`: its longest runs without white space, in order.
pub open spec fn words(s: Seq<char>) -> Seq<Seq<char>>
    decreases s.len(),
{
    if s.len() == 0 {
        Seq::empty()
    } else if is_space(s[0]) {
        words(s.skip(1))
    } else {
        proof {
            lemma_word_len(s);
        }
        seq![s.take(word_len(s) as int)] + words(s.skip(word_len(s) as int))
    }
}

/// The first `word_len(s)` characters of `s` are the longest run without white space at its start.
pub proof fn lemma_word_len(s: Seq<char>)
    ensures
        word_len(s) <= s.len(),
        s.len() > 0 && !is_space(s[0]) ==> word_len(s) > 0,
        forall|i: int| 0 <= i < word_len(s) ==> !is_space(#[trigger] s[i]),
        word_len(s) < s.len() ==> is_space(s[word_len(s) as int]),
    decreases s.len(),
{
    if s.len() > 0 && !is_space(s[0]) {
        lemma_word_len(s.skip(1));
        assert forall|i: int| 0 <= i < word_len(s) implies !is_space(#[trigger] s[i]) by {
            if i > 0 {
                assert(s[i] == s.skip(1)[i - 1]);
            }
        }
    }
}

/// The words of `s`, as `str::split_whitespace` gives them.
pub fn split_words(s: &str) -> (found: Vec<String>)
    ensures
        texts(found@) == words(s@),
{
    let text = chars_of(s);
    let mut found: Vec<String> = Vec::new();
    let mut at: usize = 0;
    assert(s@.skip(0) == s@);
    assert(texts(found@) == Seq::<Seq<char>>::empty());
    while at < text.len()
        invariant
            text@ == s@,
            at <= text.len(),
            texts(found@) + words(s@.skip(at as int)) == words(s@),
        decreases text.len() - at,
    {
        let ghost rest = s@.skip(at as int);
        if space(text[at]) {
            assert(rest.skip(1) == s@.skip(at + 1));
            at += 1;
        } else {
            let mut end: usize = at;
            assert(rest.skip(0) == rest);
            while end < text.len() && !space(text[end])
                invariant
                    text@ == s@,
                    at <= end <= text.len(),
                    rest == s@.skip(at as int),
                    word_len(rest) == (end - at) + word_len(rest.skip(end - at)),
                decreases text.len() - end,
            {
                assert(rest.skip(end - at).skip(1) == rest.skip(end + 1 - at));
                end += 1;
            }
            assert(word_len(rest.skip(end - at)) == 0);
            assert(word_len(rest) == end - at);
            proof {
                lemma_word_len(rest);
            }
            let ghost before = found@;
            let word = s.substring_char(at, end).to_owned();
            found.push(word);
            assert(word@ == rest.take(end - at));
            assert(texts(found@) == texts(before).push(word@));
            assert(rest.skip(end - at) == s@.skip(end as int));
            assert(texts(before) + (seq![rest.take(end - at)] + words(rest.skip(end - at))) == texts(
                found@,
            ) + words(s@.skip(end as int)));
            at = end;
        }
    }
    assert(s@.skip(at as int) == Seq::<char>::empty());
    assert(texts(found@) + Seq::<Seq<char>>::empty() == texts(found@));
    found
}

/// `s` without the white space at its start.
pub open spec fn trim_start(s: Seq<char>) -> Seq<char>
    decreases s.len(),
{
    if s.len() > 0 && is_space(s[0]) {
        trim_start(s.skip(1))
    } else {
        s
    }
}

/// `s` without the white space at its end.
pub open spec fn trim_end(s: Seq<char>) -> Seq<char>
    decreases s.len(),
{
    if s.len() > 0 && is_space(s.last()) {
        trim_end(s.drop_last())
    } else {
        s
    }
}

/// `s` without the white space at its two ends.
pub open spec fn trimmed(s: Seq<char>) -> Seq<char> {
    trim_end(trim_start(s))
}

/// `s` without the white space at its two ends, as `str::trim` gives it.
pub fn trim<'a>(s: &'a str) -> (r: &'a str)
    ensures
        r@ == trimmed(s@),
{
    let text = chars_of(s);
    let mut from: usize = 0;
    assert(s@.skip(0) == s@);
    while from < text.len() && space(text[from])
        invariant
            text@ == s@,
            from <= text.len(),
            trim_start(s@) == trim_start(s@.skip(from as int)),
        decreases text.len() - from,
    {
        assert(s@.skip(from as int).skip(1) == s@.skip(from + 1));
        from += 1;
    }
    let ghost rest = s@.skip(from as int);
    assert(trim_start(s@) == rest);
    let mut to: usize = text.len();
    assert(s@.subrange(from as int, to as int) == rest);
    while to > from && space(text[to - 1])
        invariant
            text@ == s@,
            from <= to <= text.len(),
            trim_end(rest) == trim_end(s@.subrange(from as int, to as int)),
        decreases to,
    {
        assert(s@.subrange(from as int, to as int).drop_last() == s@.subrange(
            from as int,
            to - 1,
        ));
        to -= 1;
    }
    s.substring_char(from, to)
}

/// `s` with `with` in place of each `pattern`, searched from the left and without overlap.
pub open spec fn replaced(s: Seq<char>, pattern: Seq<char>, with: Seq<char>) -> Seq<char>
    decreases s.len(),
{
    if pattern.len() == 0 || s.len() < pattern.len() {
        s
    } else if pattern.is_prefix_of(s) {
        with + replaced(s.skip(pattern.len() as int), pattern, with)
    } else {
        seq![s[0]] + replaced(s.skip(1), pattern, with)
    }
}

/// `s` with `with` in place of each `pattern`, as `str::replace` gives it.
pub fn replace(s: &str, pattern: &str, with: &str) -> (r: String)
    requires
        pattern@.len() > 0,
    ensures
        r@ == replaced(s@, pattern@, with@),
{
    let text = chars_of(s);
    let sought = chars_of(pattern);
    let mut out = String::new();
    let mut start: usize = 0;
    let mut at: usize = 0;
    assert(s@.skip(0) == s@);
    assert(out@ + s@.subrange(0, 0) + replaced(s@.skip(0), pattern@, with@) == replaced(
        s@,
        pattern@,
        with@,
    ));
    while sought.len() <= text.len() - at
        invariant
            text@ == s@,
            sought@ == pattern@,
            pattern@.len() > 0,
            start <= at <= text.len(),
            out@ + s@.subrange(start as int, at as int) + replaced(
                s@.skip(at as int),
                pattern@,
                with@,
            ) == replaced(s@, pattern@, with@),
        decreases text.len() - at,
    {
        let ghost rest = s@.skip(at as int);
        let ghost chunk = s@.subrange(start as int, at as int);
        if matches_at(&text, &sought, at) {
            assert(rest.subrange(0, pattern@.len() as int) == s@.subrange(
                at as int,
                at + pattern@.len(),
            ));
            let ghost before = out@;
            out.append(s.substring_char(start, at));
            out.append(with);
            let ghost tail = replaced(rest.skip(pattern@.len() as int), pattern@, with@);
            assert(rest.skip(pattern@.len() as int) == s@.skip(at + pattern@.len()));
            assert(before + chunk + (with@ + tail) == out@ + s@.subrange(
                at + pattern@.len(),
                at + pattern@.len(),
            ) + tail);
            at += sought.len();
            start = at;
        } else {
            assert(rest.subrange(0, pattern@.len() as int) == s@.subrange(
                at as int,
                at + pattern@.len(),
            ));
            let ghost tail = replaced(rest.skip(1), pattern@, with@);
            assert(rest.skip(1) == s@.skip(at + 1));
            assert(out@ + chunk + (seq![rest[0]] + tail) == out@ + s@.subrange(
                start as int,
                at + 1,
            ) + tail);
            at += 1;
        }
    }
    out.append(s.substring_char(start, text.len()));
    assert(s@.subrange(start as int, at as int) + s@.skip(at as int) == s@.subrange(
        start as int,
        text.len() as int,
    ));
    assert(out@ == replaced(s@, pattern@, with@));
    out
}

/// The least position, not before `from`, at which `pattern` stands in `s`.
pub open spec fn find_from(s: Seq<char>, pattern: Seq<char>, from: int) -> Option<int>
    decreases s.len() + 1 - from,
{
    if from + pattern.len() > s.len() {
        None
    } else if occurs_at(s, pattern, from) {
        Some(from)
    } else {
        find_from(s, pattern, from + 1)
    }
}

/// The least position, not before `from`, at which `pattern` stands in `s`.
pub fn search(s: &Vec<char>, pattern: &str, from: usize) -> (r: Option<usize>)
    requires
        from <= s.len(),
    ensures
        match r {
            Some(at) => find_from(s@, pattern@, from as int) == Some(at as int) && from <= at && at
                + pattern@.len() <= s.len(),
            None => find_from(s@, pattern@, from as int) is None,
        },
{
    let sought = chars_of(pattern);
    let mut at: usize = from;
    while sought.len() <= s.len() - at
        invariant
            sought@ == pattern@,
            from <= at <= s.len(),
            find_from(s@, pattern@, from as int) == find_from(s@, pattern@, at as int),
        decreases s.len() - at,
    {
        if matches_at(s, &sought, at) {
            return Some(at);
        }
        assert(at < s.len()) by {
            if at == s.len() {
                assert(s@.subrange(at as int, at as int) =~= pattern@);
            }
        }
        at += 1;
    }
    None
}

/// The last position of `c` in `s`.
pub open spec fn last_of(s: Seq<char>, c: char) -> Option<int>
    decreases s.len(),
{
    if s.len() == 0 {
        None
    } else if s.last() == c {
        Some(s.len() - 1)
    } else {
        last_of(s.drop_last(), c)
    }
}

/// The last position of `c` among the first `n` characters of `s`.
pub fn search_last(s: &Vec<char>, c: char, n: usize) -> (r: Option<usize>)
    requires
        n <= s.len(),
    ensures
        match r {
            Some(at) => last_of(s@.take(n as int), c) == Some(at as int) && at < n,
            None => last_of(s@.take(n as int), c) is None,
        },
{
    let mut i: usize = n;
    while i > 0
        invariant
            i <= n <= s.len(),
            last_of(s@.take(n as int), c) == last_of(s@.take(i as int), c),
        decreases i,
    {
        assert(s@.take(i as int).last() == s@[i - 1]);
        assert(s@.take(i as int).drop_last() =~= s@.take(i - 1));
        if s[i - 1] == c {
            return Some(i - 1);
        }
        i -= 1;
    }
    None
}

/// The lines with a newline between each two.
pub open spec fn joined(lines: Seq<Seq<char>>) -> Seq<char>
    decreases lines.len(),
{
    if lines.len() == 0 {
        Seq::empty()
    } else if lines.len() == 1 {
        lines[0]
    } else {
        joined(lines.drop_last()) + "\n"@ + lines.last()
    }
}

/// The lines with a newline between each two.
pub fn join_lines(lines: &Vec<String>) -> (r: String)
    ensures
        r@ == joined(texts(lines@)),
{
    let ghost all = texts(lines@);
    let mut r = String::new();
    let mut i: usize = 0;
    assert(r@ =~= joined(all.take(0)));
    while i < lines.len()
        invariant
            i <= lines.len(),
            all == texts(lines@),
            r@ == joined(all.take(i as int)),
        decreases lines.len() - i,
    {
        assert(all.take(i + 1).drop_last() =~= all.take(i as int));
        assert(all.take(i + 1).last() == lines[i as int]@);
        if i > 0 {
            r.append("\n");
        }
        r.append(lines[i].as_str());
        assert(r@ =~= joined(all.take(i + 1)));
        i += 1;
    }
    assert(all.take(i as int) =~= all);
    r
}

/// The character is a digit of ASCII.
pub open spec fn is_ascii_digit(c: char) -> bool {
    '0' <= c <= '9'
}

/// The number that digits stand for: none where another character is among them.
pub open spec fn digits_value(s: Seq<char>) -> Option<nat>
    decreases s.len(),
{
    if s.len() == 0 {
        Some(0)
    } else if is_ascii_digit(s.last()) && digits_value(s.drop_last()) is Some {
        Some(digits_value(s.drop_last())->0 * 10 + (s.last() as nat - '0' as nat) as nat)
    } else {
        None
    }
}

/// The number that a text stands for, as `str::parse` reads a `u64`: digits, at least one, perhaps
/// behind a plus sign, for a number that fits.
pub open spec fn number(s: Seq<char>) -> Option<nat> {
    let digits = if s.len() > 0 && s[0] == '+' {
        s.skip(1)
    } else {
        s
    };
    match digits_value(digits) {
        Some(n) => if digits.len() > 0 && n <= u64::MAX {
            Some(n)
        } else {
            None
        },
        None => None,
    }
}

/// The number that the characters from `from` up to `to` stand for.
pub fn parse_number(s: &Vec<char>, from: usize, to: usize) -> (r: Option<u64>)
    requires
        from <= to <= s.len(),
    ensures
        match r {
            Some(n) => number(s@.subrange(from as int, to as int)) == Some(n as nat),
            None => number(s@.subrange(from as int, to as int)) is None,
        },
{
    let ghost whole = s@.subrange(from as int, to as int);
    let start: usize = if from < to && s[from] == '+' {
        from + 1
    } else {
        from
    };
    let ghost digits = s@.subrange(start as int, to as int);
    assert(digits =~= if whole.len() > 0 && whole[0] == '+' {
        whole.skip(1)
    } else {
        whole
    });
    if start == to {
        return None;
    }
    let mut value: Option<u64> = Some(0);
    let mut i: usize = start;
    while i < to
        invariant
            from <= start <= i <= to <= s.len(),
            whole == s@.subrange(from as int, to as int),
            digits == s@.subrange(start as int, to as int),
            digits == if whole.len() > 0 && whole[0] == '+' {
                whole.skip(1)
            } else {
                whole
            },
            digits_value(digits.take(i - start)) is Some,
            match value {
                Some(n) => digits_value(digits.take(i - start)) == Some(n as nat),
                None => digits_value(digits.take(i - start))->0 > u64::MAX,
            },
        decreases to - i,
    {
        let c = s[i];
        let ghost next = digits.take(i + 1 - start);
        assert(next.drop_last() =~= digits.take(i - start));
        assert(next.last() == c);
        if c < '0' || c > '9' {
            proof {
                assert(digits[i - start] == c);
                lemma_no_digit(digits, i - start);
            }
            return None;
        }
        let digit: u64 = (c as u64) - ('0' as u64);
        value = match value {
            Some(n) => if n <= (u64::MAX - digit) / 10 {
                Some(n * 10 + digit)
            } else {
                None
            },
            None => None,
        };
        i += 1;
    }
    assert(digits.take(to - start) =~= digits);
    value
}

proof fn lemma_no_digit(s: Seq<char>, at: int)
    requires
        0 <= at < s.len(),
        !is_ascii_digit(s[at]),
    ensures
        digits_value(s) is None,
    decreases s.len(),
{
    if at < s.len() - 1 {
        lemma_no_digit(s.drop_last(), at);
    }
}

/// The decimal digit of a number below ten.
pub open spec fn digit(n: nat) -> char {
    ((('0' as u32) + n) as u32) as char
}

/// A number in decimal notation.
pub open spec fn decimal(n: nat) -> Seq<char>
    decreases n,
{
    if n < 10 {
        seq![digit(n)]
    } else {
        decimal(n / 10).push(digit(n % 10))
    }
}

fn digit_text(n: u64) -> (r: &'static str)
    requires
        n < 10,
    ensures
        r@ == seq![digit(n as nat)],
{
    proof {
        reveal_strlit("0");
        reveal_strlit("1");
        reveal_strlit("2");
        reveal_strlit("3");
        reveal_strlit("4");
        reveal_strlit("5");
        reveal_strlit("6");
        reveal_strlit("7");
        reveal_strlit("8");
        reveal_strlit("9");
    }
    let r = match n {
        0 => "0",
        1 => "1",
        2 => "2",
        3 => "3",
        4 => "4",
        5 => "5",
        6 => "6",
        7 => "7",
        8 => "8",
        _ => "9",
    };
    assert(r@ =~= seq![digit(n as nat)]);
    r
}

/// A number in decimal notation.
pub fn to_decimal(n: u64) -> (r: String)
    ensures
        r@ == decimal(n as nat),
    decreases n,
{
    if n < 10 {
        digit_text(n).to_owned()
    } else {
        let mut r = to_decimal(n / 10);
        r.append(digit_text(n % 10));
        assert(decimal((n / 10) as nat) + seq![digit((n % 10) as nat)] == decimal(
            (n / 10) as nat,
        ).push(digit((n % 10) as nat)));
        r
    }
}

/// The lexicographic order of texts by the code points of their characters.
pub open spec fn text_le(a: Seq<char>, b: Seq<char>) -> bool
    decreases a.len(),
{
    ||| a.len() == 0
    ||| b.len() > 0 && a[0] < b[0]
    ||| b.len() > 0 && a[0] == b[0] && text_le(a.skip(1), b.skip(1))
}

/// Whether `a` stands before or at `b` in the order of texts.
pub fn precedes(a: &str, b: &str) -> (r: bool)
    ensures
        r == text_le(a@, b@),
{
    let left = chars_of(a);
    let right = chars_of(b);
    let mut i: usize = 0;
    assert(a@.skip(0) == a@ && b@.skip(0) == b@);
    while i < left.len()
        invariant
            left@ == a@,
            right@ == b@,
            i <= left.len(),
            i <= right.len(),
            text_le(a@, b@) == text_le(a@.skip(i as int), b@.skip(i as int)),
        decreases left.len() - i,
    {
        if i >= right.len() {
            return false;
        }
        if left[i] != right[i] {
            return left[i] < right[i];
        }
        assert(a@.skip(i as int).skip(1) == a@.skip(i + 1));
        assert(b@.skip(i as int).skip(1) == b@.skip(i + 1));
        i += 1;
    }
    true
}

/// Every text stands at itself in the order of texts.
pub proof fn law_text_order_is_reflexive(a: Seq<char>)
    ensures
        text_le(a, a),
    decreases a.len(),
{
    if a.len() > 0 {
        law_text_order_is_reflexive(a.skip(1));
    }
}

/// Of two texts one stands before or at the other.
pub proof fn law_text_order_is_total(a: Seq<char>, b: Seq<char>)
    ensures
        text_le(a, b) || text_le(b, a),
    decreases a.len(),
{
    if a.len() > 0 && b.len() > 0 && a[0] == b[0] {
        law_text_order_is_total(a.skip(1), b.skip(1));
    }
}

/// The order of texts is transitive.
pub proof fn law_text_order_is_transitive(a: Seq<char>, b: Seq<char>, c: Seq<char>)
    requires
        text_le(a, b),
        text_le(b, c),
    ensures
        text_le(a, c),
    decreases a.len(),
{
    if a.len() > 0 && b.len() > 0 && c.len() > 0 && a[0] == b[0] && b[0] == c[0] {
        law_text_order_is_transitive(a.skip(1), b.skip(1), c.skip(1));
    }
}

/// Two texts that stand before or at each other are the same text.
pub proof fn law_text_order_is_antisymmetric(a: Seq<char>, b: Seq<char>)
    requires
        text_le(a, b),
        text_le(b, a),
    ensures
        a == b,
    decreases a.len(),
{
    if a.len() == 0 || b.len() == 0 {
        assert(a =~= b);
    } else {
        law_text_order_is_antisymmetric(a.skip(1), b.skip(1));
        assert(a =~= seq![a[0]] + a.skip(1));
        assert(b =~= seq![b[0]] + b.skip(1));
    }
}

/// The words of a text are not empty, hold no white space, and hold together every other
/// character of the text, in order.
pub proof fn law_words_hold_the_text_without_white_space(s: Seq<char>)
    ensures
        forall|i: int| 0 <= i < words(s).len() ==> #[trigger] words(s)[i].len() > 0,
        forall|i: int, j: int|
            0 <= i < words(s).len() && 0 <= j < words(s)[i].len() ==> !is_space(
                #[trigger] words(s)[i][j],
            ),
        words(s).flatten() == s.filter(|c: char| !is_space(c)),
    decreases s.len(),
{
    let kept = |c: char| !is_space(c);
    if s.len() == 0 {
        reveal(Seq::filter);
        assert(words(s).flatten() =~= s.filter(kept));
    } else if is_space(s[0]) {
        law_words_hold_the_text_without_white_space(s.skip(1));
        assert(s =~= seq![s[0]] + s.skip(1));
        Seq::filter_distributes_over_add(seq![s[0]], s.skip(1), kept);
        lemma_filter_one(s[0], kept);
        assert(Seq::<char>::empty() + s.skip(1).filter(kept) =~= s.skip(1).filter(kept));
    } else {
        lemma_word_len(s);
        let n = word_len(s) as int;
        let first = s.take(n);
        let rest = words(s.skip(n));
        law_words_hold_the_text_without_white_space(s.skip(n));
        assert(s =~= first + s.skip(n));
        Seq::filter_distributes_over_add(first, s.skip(n), kept);
        lemma_filter_all(first, kept);
        assert(words(s) =~= seq![first] + rest);
        assert((seq![first] + rest).drop_first() =~= rest);
        assert forall|i: int| 0 <= i < words(s).len() implies #[trigger] words(s)[i].len() > 0 by {
            if i > 0 {
                assert(words(s)[i] == rest[i - 1]);
            }
        }
        assert forall|i: int, j: int|
            0 <= i < words(s).len() && 0 <= j < words(s)[i].len() implies !is_space(
            #[trigger] words(s)[i][j],
        ) by {
            if i > 0 {
                assert(words(s)[i] == rest[i - 1]);
                assert(!is_space(rest[i - 1][j]));
            }
        }
    }
}

/// A text in which the pattern does not stand is left as it is.
pub proof fn law_nothing_to_replace(s: Seq<char>, pattern: Seq<char>, with: Seq<char>)
    requires
        !occurs_in(s, pattern),
    ensures
        replaced(s, pattern, with) == s,
    decreases s.len(),
{
    if pattern.len() > 0 && s.len() >= pattern.len() {
        if pattern.is_prefix_of(s) {
            assert(occurs_at(s, pattern, 0));
        }
        assert forall|at: int| !occurs_at(s.skip(1), pattern, at) by {
            if occurs_at(s.skip(1), pattern, at) {
                assert(s.subrange(at + 1, at + 1 + pattern.len()) =~= s.skip(1).subrange(
                    at,
                    at + pattern.len(),
                ));
                assert(occurs_at(s, pattern, at + 1));
            }
        }
        law_nothing_to_replace(s.skip(1), pattern, with);
        assert(seq![s[0]] + s.skip(1) =~= s);
    }
}

/// Where the pattern stands in a text, its replacement stands in the outcome.
pub proof fn law_a_replacement_occurs(s: Seq<char>, pattern: Seq<char>, with: Seq<char>)
    requires
        pattern.len() > 0,
        occurs_in(s, pattern),
    ensures
        occurs_in(replaced(s, pattern, with), with),
    decreases s.len(),
{
    let at = choose|at: int| occurs_at(s, pattern, at);
    let r = replaced(s, pattern, with);
    if pattern.is_prefix_of(s) {
        assert(r.subrange(0, with.len() as int) =~= with);
        assert(occurs_at(r, with, 0));
    } else {
        let rest = s.skip(1);
        if at == 0 {
            assert(pattern =~= s.subrange(0, pattern.len() as int));
        }
        assert(rest.subrange(at - 1, at - 1 + pattern.len()) =~= s.subrange(
            at,
            at + pattern.len(),
        ));
        assert(occurs_at(rest, pattern, at - 1));
        law_a_replacement_occurs(rest, pattern, with);
        let tail = replaced(rest, pattern, with);
        let found = choose|found: int| occurs_at(tail, with, found);
        assert(r.subrange(found + 1, found + 1 + with.len()) =~= tail.subrange(
            found,
            found + with.len(),
        ));
        assert(occurs_at(r, with, found + 1));
    }
}

proof fn lemma_filter_one(c: char, kept: spec_fn(char) -> bool)
    ensures
        seq![c].filter(kept) == if kept(c) {
            seq![c]
        } else {
            Seq::empty()
        },
{
    reveal(Seq::filter);
    assert(seq![c].drop_last() =~= Seq::empty());
    assert(Seq::<char>::empty().filter(kept) =~= Seq::empty());
    assert(Seq::<char>::empty().push(c) =~= seq![c]);
}

proof fn lemma_filter_all(s: Seq<char>, kept: spec_fn(char) -> bool)
    requires
        forall|i: int| 0 <= i < s.len() ==> kept(#[trigger] s[i]),
    ensures
        s.filter(kept) == s,
    decreases s.len(),
{
    reveal(Seq::filter);
    if s.len() > 0 {
        lemma_filter_all(s.drop_last(), kept);
        assert(s.drop_last().push(s.last()) =~= s);
    }
}

/// The texts of strings are theirs, one by one.
pub proof fn law_texts_are_those_of_the_strings(strings: Seq<String>)
    ensures
        texts(strings).len() == strings.len(),
        forall|i: int| 0 <= i < strings.len() ==> #[trigger] texts(strings)[i] == strings[i]@,
{
}

/// A pattern stands at a position if and only if the characters of the text from there on are those
/// of the pattern, one by one.
pub proof fn law_a_pattern_occurs_character_by_character(
    s: Seq<char>,
    pattern: Seq<char>,
    at: int,
)
    ensures
        occurs_at(s, pattern, at) <==> 0 <= at && at + pattern.len() <= s.len() && forall|k: int|
            0 <= k < pattern.len() ==> s[at + k] == #[trigger] pattern[k],
{
    if 0 <= at && at + pattern.len() <= s.len() {
        let part = s.subrange(at, at + pattern.len());
        if part == pattern {
            assert forall|k: int| 0 <= k < pattern.len() implies s[at + k]
                == #[trigger] pattern[k] by {
                assert(part[k] == s[at + k]);
            }
        }
        if forall|k: int| 0 <= k < pattern.len() ==> s[at + k] == #[trigger] pattern[k] {
            assert(part =~= pattern);
        }
    }
}

/// A pattern stands in a text if and only if the text is the pattern with something, perhaps nothing,
/// before it and behind it.
pub proof fn law_a_pattern_stands_between_two_parts(s: Seq<char>, pattern: Seq<char>)
    ensures
        occurs_in(s, pattern) <==> exists|before: Seq<char>, after: Seq<char>|
            s == #[trigger] (before + pattern + after),
{
    if occurs_in(s, pattern) {
        let at = choose|at: int| occurs_at(s, pattern, at);
        let before = s.take(at);
        let after = s.skip(at + pattern.len());
        assert(s =~= before + pattern + after);
    }
    if exists|before: Seq<char>, after: Seq<char>| s == #[trigger] (before + pattern + after) {
        let (before, after) = choose|before: Seq<char>, after: Seq<char>|
            s == #[trigger] (before + pattern + after);
        let at = before.len() as int;
        assert(s.subrange(at, at + pattern.len()) =~= pattern);
        assert(occurs_at(s, pattern, at));
    }
}

/// The white space of Unicode, by code points.
pub proof fn law_white_space_by_code_points(c: char)
    ensures
        is_space(c) <==> {
            let n = c as u32;
            ||| 9 <= n <= 13
            ||| n == 32
            ||| n == 0x85
            ||| n == 0xa0
            ||| n == 0x1680
            ||| 0x2000 <= n <= 0x200a
            ||| n == 0x2028
            ||| n == 0x2029
            ||| n == 0x202f
            ||| n == 0x205f
            ||| n == 0x3000
        },
{
}

/// `from` tells where words start in a text: each is a run of characters without white space that
/// stands between white space or the ends of the text, one after the other, and every character that
/// is no white space is in one of them.
pub open spec fn are_words_at(s: Seq<char>, found: Seq<Seq<char>>, from: Seq<int>) -> bool {
    &&& from.len() == found.len()
    &&& forall|i: int|
        0 <= i < from.len() ==> {
            &&& 0 <= #[trigger] from[i] && from[i] + found[i].len() <= s.len()
            &&& found[i].len() > 0
            &&& found[i] == s.subrange(from[i], from[i] + found[i].len())
            &&& from[i] == 0 || is_space(s[from[i] - 1])
            &&& from[i] + found[i].len() == s.len() || is_space(s[from[i] + found[i].len()])
        }
    &&& forall|i: int, k: int|
        #![trigger from[i], s[k]]
        0 <= i < from.len() && from[i] <= k < from[i] + found[i].len() ==> !is_space(s[k])
    &&& forall|i: int, j: int|
        0 <= i < j < from.len() ==> #[trigger] from[i] + found[i].len() < #[trigger] from[j]
    &&& forall|k: int|
        0 <= k < s.len() && !is_space(#[trigger] s[k]) ==> exists|i: int|
            0 <= i < from.len() && #[trigger] from[i] <= k < from[i] + found[i].len()
}

/// The words of a text are its longest runs without white space, all of them and in order.
pub proof fn law_words_are_the_longest_runs(s: Seq<char>) -> (from: Seq<int>)
    ensures
        are_words_at(s, words(s), from),
    decreases s.len(),
{
    if s.len() == 0 {
        let from = Seq::<int>::empty();
        assert(are_words_at(s, words(s), from));
        from
    } else {
        lemma_word_len(s);
        let n = if is_space(s[0]) {
            1int
        } else {
            word_len(s) as int
        };
        let rest = s.skip(n);
        let tail = law_words_are_the_longest_runs(rest);
        let later = tail.map_values(|x: int| x + n);
        assert forall|k: int| 0 <= k < rest.len() implies #[trigger] rest[k] == s[k + n] by {}
        let from = if is_space(s[0]) {
            later
        } else {
            seq![0int] + later
        };
        let d = if is_space(s[0]) {
            0int
        } else {
            1int
        };
        let found = words(s);
        assert(found.len() == from.len());
        assert forall|i: int| d <= i < from.len() implies #[trigger] from[i] == tail[i - d] + n
            && found[i] == words(rest)[i - d] by {}
        assert forall|i: int| 0 <= i < from.len() implies {
            &&& 0 <= #[trigger] from[i] && from[i] + found[i].len() <= s.len()
            &&& found[i].len() > 0
            &&& found[i] == s.subrange(from[i], from[i] + found[i].len())
            &&& from[i] == 0 || is_space(s[from[i] - 1])
            &&& from[i] + found[i].len() == s.len() || is_space(s[from[i] + found[i].len()])
        } by {
            if i >= d {
                let j = i - d;
                let len = found[i].len() as int;
                assert(0 <= tail[j]);
                assert(found[i] =~= s.subrange(from[i], from[i] + len)) by {
                    assert(rest.subrange(tail[j], tail[j] + len) =~= s.subrange(
                        tail[j] + n,
                        tail[j] + n + len,
                    ));
                }
                if tail[j] == 0 {
                    if is_space(s[0]) {
                        assert(s[from[i] - 1] == s[0]);
                    } else {
                        assert(!is_space(rest[0])) by {
                            assert(tail[j] <= 0 < tail[j] + words(rest)[j].len());
                            assert(!is_space(rest[0]));
                        }
                        assert(s[n] == rest[0]);
                    }
                } else {
                    assert(rest[tail[j] - 1] == s[from[i] - 1]);
                }
                if tail[j] + len < rest.len() {
                    assert(rest[tail[j] + len] == s[from[i] + len]);
                }
            } else {
                assert(found[0] == s.take(n));
                assert(s.take(n) =~= s.subrange(0, n));
            }
        }
        assert forall|i: int, k: int|
            #![trigger from[i], s[k]]
            0 <= i < from.len() && from[i] <= k < from[i] + found[i].len() implies !is_space(s[k]) by {
            if i >= d {
                assert(tail[i - d] <= k - n);
                assert(rest[k - n] == s[k]);
            }
        }
        assert forall|i: int, j: int| 0 <= i < j < from.len() implies #[trigger] from[i]
            + found[i].len() < #[trigger] from[j] by {
            if i >= d {
                assert(tail[i - d] + words(rest)[i - d].len() < tail[j - d]);
            } else {
                assert(from[j] == tail[j - d] + n);
                if tail[j - d] == 0 {
                    assert(!is_space(rest[0])) by {
                        assert(tail[j - d] <= 0 < tail[j - d] + words(rest)[j - d].len());
                    }
                    assert(s[n] == rest[0]);
                }
            }
        }
        assert forall|k: int| 0 <= k < s.len() && !is_space(#[trigger] s[k]) implies exists|i: int|
            0 <= i < from.len() && #[trigger] from[i] <= k < from[i] + found[i].len() by {
            if k >= n {
                assert(rest[k - n] == s[k]);
                let j = choose|j: int|
                    0 <= j < tail.len() && #[trigger] tail[j] <= k - n < tail[j]
                        + words(rest)[j].len();
                assert(from[j + d] == tail[j] + n);
            } else {
                assert(from[0] == 0);
            }
        }
        from
    }
}

/// Trimming takes white space off the two ends and nothing else: what is left has none there.
pub proof fn law_trimming_takes_white_space_off_the_ends(s: Seq<char>)
    ensures
        exists|from: int, to: int|
            {
                &&& 0 <= from <= to <= s.len()
                &&& trimmed(s) == #[trigger] s.subrange(from, to)
                &&& forall|k: int| 0 <= k < from ==> is_space(#[trigger] s[k])
                &&& forall|k: int| to <= k < s.len() ==> is_space(#[trigger] s[k])
            },
        trimmed(s).len() > 0 ==> !is_space(trimmed(s)[0]) && !is_space(trimmed(s).last()),
{
    let from = lemma_trim_start(s);
    let mid = s.skip(from);
    let len = lemma_trim_end(mid);
    let to = from + len;
    assert(trimmed(s) =~= s.subrange(from, to));
    assert forall|k: int| to <= k < s.len() implies is_space(#[trigger] s[k]) by {
        assert(mid[k - from] == s[k]);
    }
    if trimmed(s).len() > 0 {
        assert(trimmed(s)[0] == mid[0]);
    }
}

proof fn lemma_trim_start(s: Seq<char>) -> (from: int)
    ensures
        0 <= from <= s.len(),
        trim_start(s) == s.skip(from),
        forall|k: int| 0 <= k < from ==> is_space(#[trigger] s[k]),
        from < s.len() ==> !is_space(s[from]),
    decreases s.len(),
{
    if s.len() > 0 && is_space(s[0]) {
        let rest = s.skip(1);
        let from = lemma_trim_start(rest);
        assert(rest.skip(from) =~= s.skip(from + 1));
        assert forall|k: int| 0 <= k < from + 1 implies is_space(#[trigger] s[k]) by {
            if k > 0 {
                assert(rest[k - 1] == s[k]);
            }
        }
        if from < rest.len() {
            assert(rest[from] == s[from + 1]);
        }
        from + 1
    } else {
        assert(s.skip(0) =~= s);
        0
    }
}

proof fn lemma_trim_end(s: Seq<char>) -> (to: int)
    ensures
        0 <= to <= s.len(),
        trim_end(s) == s.take(to),
        forall|k: int| to <= k < s.len() ==> is_space(#[trigger] s[k]),
        to > 0 ==> !is_space(s[to - 1]),
    decreases s.len(),
{
    if s.len() > 0 && is_space(s.last()) {
        let rest = s.drop_last();
        let to = lemma_trim_end(rest);
        assert(rest.take(to) =~= s.take(to));
        assert forall|k: int| to <= k < s.len() implies is_space(#[trigger] s[k]) by {
            if k < rest.len() {
                assert(rest[k] == s[k]);
            }
        }
        to
    } else {
        assert(s.take(s.len() as int) =~= s);
        s.len() as int
    }
}

/// The first occurrence of the pattern is replaced, what stands before it is kept, and the search
/// goes on behind it.
pub proof fn law_the_first_occurrence_is_replaced(
    s: Seq<char>,
    pattern: Seq<char>,
    with: Seq<char>,
    at: int,
)
    requires
        pattern.len() > 0,
        occurs_at(s, pattern, at),
        forall|j: int| 0 <= j < at ==> !#[trigger] occurs_at(s, pattern, j),
    ensures
        replaced(s, pattern, with) == s.take(at) + with + replaced(
            s.skip(at + pattern.len()),
            pattern,
            with,
        ),
    decreases at,
{
    let goal = s.take(at) + with + replaced(s.skip(at + pattern.len()), pattern, with);
    if at == 0 {
        assert(pattern =~= s.subrange(0, pattern.len() as int));
        assert(pattern.is_prefix_of(s));
        assert(replaced(s, pattern, with) =~= goal);
    } else {
        let rest = s.skip(1);
        assert(!occurs_at(s, pattern, 0));
        assert(!pattern.is_prefix_of(s));
        assert(rest.subrange(at - 1, at - 1 + pattern.len()) =~= s.subrange(
            at,
            at + pattern.len(),
        ));
        assert forall|j: int| 0 <= j < at - 1 implies !#[trigger] occurs_at(rest, pattern, j) by {
            if occurs_at(rest, pattern, j) {
                assert(rest.subrange(j, j + pattern.len()) =~= s.subrange(
                    j + 1,
                    j + 1 + pattern.len(),
                ));
                assert(occurs_at(s, pattern, j + 1));
            }
        }
        law_the_first_occurrence_is_replaced(rest, pattern, with, at - 1);
        assert(rest.skip(at - 1 + pattern.len()) =~= s.skip(at + pattern.len()));
        assert(seq![s[0]] + (rest.take(at - 1) + with + replaced(
            s.skip(at + pattern.len()),
            pattern,
            with,
        )) =~= goal);
    }
}

/// A search finds the least position of the pattern that is not before the start, if and only if
/// there is one.
pub proof fn law_a_search_finds_the_first_occurrence(s: Seq<char>, pattern: Seq<char>, from: int)
    requires
        0 <= from,
    ensures
        find_from(s, pattern, from) matches Some(at) ==> from <= at && occurs_at(s, pattern, at)
            && forall|j: int| from <= j < at ==> !#[trigger] occurs_at(s, pattern, j),
        find_from(s, pattern, from) is None ==> forall|j: int|
            from <= j ==> !#[trigger] occurs_at(s, pattern, j),
    decreases s.len() + 1 - from,
{
    if from + pattern.len() <= s.len() && !occurs_at(s, pattern, from) {
        law_a_search_finds_the_first_occurrence(s, pattern, from + 1);
    }
}

/// The last position of a character is where it stands and does not stand later.
pub proof fn law_the_last_position_of_a_character(s: Seq<char>, c: char)
    ensures
        last_of(s, c) matches Some(at) ==> 0 <= at < s.len() && s[at] == c && forall|j: int|
            at < j < s.len() ==> #[trigger] s[j] != c,
        last_of(s, c) is None ==> forall|j: int| 0 <= j < s.len() ==> #[trigger] s[j] != c,
    decreases s.len(),
{
    if s.len() > 0 && s.last() != c {
        let rest = s.drop_last();
        law_the_last_position_of_a_character(rest, c);
        assert forall|j: int| 0 <= j < rest.len() implies #[trigger] s[j] == rest[j] by {}
    }
}

/// Another line is joined behind a newline.
pub proof fn law_lines_are_joined_by_newlines(lines: Seq<Seq<char>>, line: Seq<char>)
    ensures
        joined(seq![line]) == line,
        lines.len() > 0 ==> joined(lines.push(line)) == joined(lines) + seq!['\n'] + line,
{
    reveal_strlit("\n");
    assert("\n"@ =~= seq!['\n']);
    assert(lines.push(line).drop_last() =~= lines);
}

/// The value of digits grows tenfold with each further digit, and only digits have one.
pub proof fn law_digits_have_their_value(s: Seq<char>, c: char)
    ensures
        digits_value(Seq::empty()) == Some(0nat),
        digits_value(s) is Some && 48 <= c as u32 <= 57 ==> digits_value(s.push(c)) == Some(
            (digits_value(s)->0 * 10 + (c as u32 - 48)) as nat,
        ),
        digits_value(s) is None || (c as u32) < 48 || c as u32 > 57 ==> digits_value(
            s.push(c),
        ) is None,
{
    assert(s.push(c).drop_last() =~= s);
}

/// A text stands for a number if and only if, without a plus sign at its start, it has at least one
/// digit and nothing else, and their value fits.
pub proof fn law_a_number_is_the_value_of_its_digits(digits: Seq<char>)
    requires
        digits.len() > 0 ==> digits[0] != '+',
    ensures
        digits.len() > 0 && digits_value(digits) is Some && digits_value(digits)->0
            <= 0xffff_ffff_ffff_ffff ==> number(digits) == digits_value(digits) && number(
            seq!['+'] + digits,
        ) == digits_value(digits),
        digits.len() == 0 || digits_value(digits) is None || digits_value(digits)->0
            > 0xffff_ffff_ffff_ffff ==> number(digits) is None && number(
            seq!['+'] + digits,
        ) is None,
{
    assert((seq!['+'] + digits).skip(1) =~= digits);
}

/// The decimal notation of a number has its value, and starts with a zero only for zero.
pub proof fn law_decimal_notation_has_the_value(n: nat)
    ensures
        digits_value(decimal(n)) == Some(n),
        decimal(n).len() > 0,
        n > 0 ==> decimal(n)[0] != '0',
    decreases n,
{
    if n >= 10 {
        law_decimal_notation_has_the_value(n / 10);
        let before = decimal(n / 10);
        let d = n % 10;
        law_digits_have_their_value(before, digit(d));
        assert(digit(d) as u32 == 48 + d);
        assert(decimal(n)[0] == before[0]);
    } else {
        law_digits_have_their_value(Seq::empty(), digit(n));
        assert(digit(n) as u32 == 48 + n);
        assert(decimal(n) =~= Seq::<char>::empty().push(digit(n)));
    }
}

/// Where two texts first differ decides their order: the one that ends there, or has the character
/// with the lower code point there, stands before the other.
pub proof fn law_texts_are_ordered_by_their_first_difference(a: Seq<char>, b: Seq<char>, k: int)
    requires
        0 <= k <= a.len(),
        k <= b.len(),
        a.take(k) == b.take(k),
        k < a.len() && k < b.len() ==> a[k] != b[k],
    ensures
        text_le(a, b) <==> k == a.len() || k < b.len() && a[k] < b[k],
    decreases k,
{
    if k > 0 {
        let x = a.skip(1);
        let y = b.skip(1);
        assert(a.take(k)[0] == a[0] && b.take(k)[0] == b[0]);
        assert(x.take(k - 1) =~= a.take(k).skip(1));
        assert(y.take(k - 1) =~= b.take(k).skip(1));
        law_texts_are_ordered_by_their_first_difference(x, y, k - 1);
    }
}

} // verus!
