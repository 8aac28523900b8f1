use vstd::prelude::*;

verus! {

broadcast use vstd::string::group_string_axioms;

/// The characters of `s`, in order.
pub fn chars_of(s: &str) -> (v: Vec<char>)
    ensures
        v@ == s@,
{
    let mut v: Vec<char> = Vec::new();
    for c in it: s.chars()
        invariant
            v@ == it.seq().take(it.index()),
            it.seq() == s@,
    {
        v.push(c);
    }
    v
}

/// Unicode `White_Space`, the characters that separate words.
pub open spec fn is_space(c: char) -> bool {
    let x = c as u32;
    ||| 0x9 <= x <= 0xD
    ||| x == 0x20
    ||| x == 0x85
    ||| x == 0xA0
    ||| x == 0x1680
    ||| 0x2000 <= x <= 0x200A
    ||| x == 0x2028
    ||| x == 0x2029
    ||| x == 0x202F
    ||| x == 0x205F
    ||| x == 0x3000
}

/// Whether `c` is Unicode whitespace.
pub fn char_is_space(c: char) -> (b: bool)
    ensures
        b == is_space(c),
{
    let x = c as u32;
    (0x9 <= x && x <= 0xD) || x == 0x20 || x == 0x85 || x == 0xA0 || x == 0x1680 || (0x2000 <= x
        && x <= 0x200A) || x == 0x2028 || x == 0x2029 || x == 0x202F || x == 0x205F || x == 0x3000
}

/// Scan of the first `n` characters of `s`: the spans `(start, end)` of the
/// maximal runs of non-whitespace characters that closed before position
/// `n`, and the start of the run still open at `n`, if any.
pub open spec fn scan_words(s: Seq<char>, n: int) -> (Seq<(int, int)>, Option<int>)
    decreases n,
{
    if n <= 0 {
        (Seq::empty(), None)
    } else {
        let (done, open) = scan_words(s, n - 1);
        if is_space(s[n - 1]) {
            match open {
                Some(start) => (done.push((start, n - 1)), None),
                None => (done, None),
            }
        } else {
            match open {
                Some(start) => (done, Some(start)),
                None => (done, Some(n - 1)),
            }
        }
    }
}

/// The spans of the words of `s`, in order: its maximal runs of
/// non-whitespace characters.
pub open spec fn word_spans(s: Seq<char>) -> Seq<(int, int)> {
    let (done, open) = scan_words(s, s.len() as int);
    match open {
        Some(start) => done.push((start, s.len() as int)),
        None => done,
    }
}

/// Every span the scan records lies within the scanned prefix, and an open
/// word starts inside it.
proof fn lemma_scan_words_bounds(s: Seq<char>, n: int)
    requires
        0 <= n <= s.len(),
    ensures
        forall|k: int|
            0 <= k < scan_words(s, n).0.len() ==> 0 <= (#[trigger] scan_words(s, n).0[k]).0
                <= scan_words(s, n).0[k].1 <= n,
        scan_words(s, n).1 matches Some(st) ==> 0 <= st < n,
    decreases n,
{
    if n > 0 {
        lemma_scan_words_bounds(s, n - 1);
    }
}

/// Every word span lies within `s`.
pub proof fn lemma_word_spans_bounds(s: Seq<char>)
    ensures
        forall|k: int|
            0 <= k < word_spans(s).len() ==> 0 <= (#[trigger] word_spans(s)[k]).0
                <= word_spans(s)[k].1 <= s.len(),
{
    lemma_scan_words_bounds(s, s.len() as int);
}

/// The words of `s`, as `str::split_whitespace` yields them.
pub open spec fn words(s: Seq<char>) -> Seq<Seq<char>> {
    let spans = word_spans(s);
    Seq::new(spans.len(), |k: int| s.subrange(spans[k].0, spans[k].1))
}

/// The spans of the words of `s`, in order.
pub fn word_spans_of(s: &Vec<char>) -> (spans: Vec<(usize, usize)>)
    ensures
        spans@.len() == word_spans(s@).len(),
        forall|k: int|
            0 <= k < spans@.len() ==> (#[trigger] spans@[k]).0 == word_spans(s@)[k].0
                && spans@[k].1 == word_spans(s@)[k].1,
        forall|k: int|
            0 <= k < spans@.len() ==> (#[trigger] spans@[k]).0 <= spans@[k].1 <= s@.len(),
{
    proof {
        lemma_word_spans_bounds(s@);
    }
    let mut spans: Vec<(usize, usize)> = Vec::new();
    let mut open: Option<usize> = None;
    let mut i: usize = 0;
    while i < s.len()
        invariant
            i <= s@.len(),
            spans@.len() == scan_words(s@, i as int).0.len(),
            forall|k: int|
                0 <= k < spans@.len() ==> (#[trigger] spans@[k]).0 == scan_words(s@, i as int).0[k].0
                    && spans@[k].1 == scan_words(s@, i as int).0[k].1,
            match open {
                Some(st) => scan_words(s@, i as int).1 == Some(st as int),
                None => scan_words(s@, i as int).1 is None,
            },
        decreases s@.len() - i,
    {
        let c = s[i];
        if char_is_space(c) {
            if let Some(st) = open {
                spans.push((st, i));
                open = None;
            }
        } else {
            if open.is_none() {
                open = Some(i);
            }
        }
        i = i + 1;
    }
    if let Some(st) = open {
        spans.push((st, s.len()));
    }
    assert forall|k: int| 0 <= k < spans@.len() implies (#[trigger] spans@[k]).0 <= spans@[k].1
        <= s@.len() by {
        assert(spans@[k].0 == word_spans(s@)[k].0 && spans@[k].1 == word_spans(s@)[k].1);
    }
    spans
}

/// The value of an ASCII decimal digit.
pub open spec fn digit_value(c: char) -> int {
    c as u32 - 48
}

/// Whether `c` is one of the ASCII digits `0` to `9`.
pub open spec fn is_digit(c: char) -> bool {
    48 <= c as u32 <= 57
}

/// The number that the decimal digits `ds` spell.
pub open spec fn digits_value(ds: Seq<char>) -> nat
    decreases ds.len(),
{
    if ds.len() == 0 {
        0
    } else {
        (digits_value(ds.drop_last()) * 10 + digit_value(ds.last())) as nat
    }
}

/// `ds` is a non-empty run of ASCII digits.
pub open spec fn is_numeral(ds: Seq<char>) -> bool {
    ds.len() > 0 && forall|i: int| 0 <= i < ds.len() ==> is_digit(#[trigger] ds[i])
}

/// `word` without one leading `+`, if it has one.
pub open spec fn unsigned_digits(word: Seq<char>) -> Seq<char> {
    if word.len() > 0 && word[0] == '+' {
        word.drop_first()
    } else {
        word
    }
}

/// The `u32` that `word` denotes as `str::parse::<u32>` reads it: an optional
/// `+` and at least one ASCII digit, of value at most `u32::MAX`.
pub open spec fn parse_u32_word(word: Seq<char>) -> Option<u32> {
    let ds = unsigned_digits(word);
    if is_numeral(ds) && digits_value(ds) <= u32::MAX {
        Some(digits_value(ds) as u32)
    } else {
        None
    }
}

/// The `i32` that `word` denotes as `str::parse::<i32>` reads it: an optional
/// `+` or `-` and at least one ASCII digit, of value within `i32`.
pub open spec fn parse_i32_word(word: Seq<char>) -> Option<i32> {
    if word.len() > 0 && word[0] == '-' {
        let ds = word.drop_first();
        if is_numeral(ds) && digits_value(ds) <= 0x8000_0000 {
            Some((-digits_value(ds)) as i32)
        } else {
            None
        }
    } else {
        let ds = unsigned_digits(word);
        if is_numeral(ds) && digits_value(ds) <= i32::MAX {
            Some(digits_value(ds) as i32)
        } else {
            None
        }
    }
}

/// The value of the digits `s[start..end]`, or `limit + 1` if that value
/// exceeds `limit`; `None` unless the range is a non-empty run of digits.
fn capped_digits_value(s: &Vec<char>, start: usize, end: usize, limit: u64) -> (r: Option<u64>)
    requires
        start <= end <= s@.len(),
        limit < u64::MAX / 16,
    ensures
        match r {
            Some(v) => is_numeral(s@.subrange(start as int, end as int)) && v == if digits_value(
                s@.subrange(start as int, end as int),
            ) > limit {
                limit + 1
            } else {
                digits_value(s@.subrange(start as int, end as int)) as int
            },
            None => !is_numeral(s@.subrange(start as int, end as int)),
        },
{
    if start == end {
        return None;
    }
    let mut acc: u64 = 0;
    let mut i: usize = start;
    while i < end
        invariant
            start <= i <= end <= s@.len(),
            limit < u64::MAX / 16,
            forall|j: int| start <= j < i ==> is_digit(#[trigger] s@[j]),
            acc == if digits_value(s@.subrange(start as int, i as int)) > limit {
                limit + 1
            } else {
                digits_value(s@.subrange(start as int, i as int)) as int
            },
        decreases end - i,
    {
        let c = s[i];
        let x = c as u32;
        if x < 48 || x > 57 {
            assert(s@.subrange(start as int, end as int)[i - start] == c);
            return None;
        }
        let ghost prev = s@.subrange(start as int, i as int);
        let ghost next = s@.subrange(start as int, i as int + 1);
        assert(next.drop_last() =~= prev);
        assert(next.last() == c);
        let d = (x - 48) as u64;
        let candidate = acc * 10 + d;
        acc = if candidate > limit {
            limit + 1
        } else {
            candidate
        };
        i = i + 1;
    }
    assert forall|j: int| 0 <= j < end - start implies is_digit(
        #[trigger] s@.subrange(start as int, end as int)[j],
    ) by {
        assert(s@.subrange(start as int, end as int)[j] == s@[start + j]);
    }
    Some(acc)
}

/// Reads `s[start..end]` as `str::parse::<u32>` does.
pub fn parse_u32_at(s: &Vec<char>, start: usize, end: usize) -> (r: Option<u32>)
    requires
        start <= end <= s@.len(),
    ensures
        r == parse_u32_word(s@.subrange(start as int, end as int)),
{
    let ghost word = s@.subrange(start as int, end as int);
    let mut first = start;
    if start < end && s[start] == '+' {
        first = start + 1;
        assert(unsigned_digits(word) =~= s@.subrange(first as int, end as int));
    } else {
        assert(unsigned_digits(word) =~= s@.subrange(first as int, end as int));
    }
    match capped_digits_value(s, first, end, 0xFFFF_FFFF) {
        Some(v) => {
            if v > 0xFFFF_FFFF {
                None
            } else {
                Some(v as u32)
            }
        },
        None => None,
    }
}

/// Reads `s[start..end]` as `str::parse::<i32>` does.
pub fn parse_i32_at(s: &Vec<char>, start: usize, end: usize) -> (r: Option<i32>)
    requires
        start <= end <= s@.len(),
    ensures
        r == parse_i32_word(s@.subrange(start as int, end as int)),
{
    let ghost word = s@.subrange(start as int, end as int);
    if start < end && s[start] == '-' {
        assert(word.drop_first() =~= s@.subrange(start as int + 1, end as int));
        match capped_digits_value(s, start + 1, end, 0x8000_0000) {
            Some(v) => {
                if v > 0x8000_0000 {
                    None
                } else {
                    Some((0 - (v as i64)) as i32)
                }
            },
            None => None,
        }
    } else {
        let mut first = start;
        if start < end && s[start] == '+' {
            first = start + 1;
        }
        assert(unsigned_digits(word) =~= s@.subrange(first as int, end as int));
        match capped_digits_value(s, first, end, 0x7FFF_FFFF) {
            Some(v) => {
                if v > 0x7FFF_FFFF {
                    None
                } else {
                    Some(v as i32)
                }
            },
            None => None,
        }
    }
}

/// The ASCII digit for `d`, for `0 <= d < 10`.
pub open spec fn digit_char(d: int) -> char {
    if d == 0 {
        '0'
    } else if d == 1 {
        '1'
    } else if d == 2 {
        '2'
    } else if d == 3 {
        '3'
    } else if d == 4 {
        '4'
    } else if d == 5 {
        '5'
    } else if d == 6 {
        '6'
    } else if d == 7 {
        '7'
    } else if d == 8 {
        '8'
    } else {
        '9'
    }
}

/// The decimal numeral of `n`, as `{}` formats an unsigned integer.
pub open spec fn decimal(n: nat) -> Seq<char>
    decreases n,
{
    if n < 10 {
        seq![digit_char(n as int)]
    } else {
        decimal(n / 10).push(digit_char((n % 10) as int))
    }
}

/// The one-character string of digit `d`.
fn digit_str(d: u64) -> (s: &'static str)
    requires
        d < 10,
    ensures
        s@ == seq![digit_char(d as int)],
{
    if d == 0 {
        proof {
            reveal_strlit("0");
        }
        "0"
    } else if d == 1 {
        proof {
            reveal_strlit("1");
        }
        "1"
    } else if d == 2 {
        proof {
            reveal_strlit("2");
        }
        "2"
    } else if d == 3 {
        proof {
            reveal_strlit("3");
        }
        "3"
    } else if d == 4 {
        proof {
            reveal_strlit("4");
        }
        "4"
    } else if d == 5 {
        proof {
            reveal_strlit("5");
        }
        "5"
    } else if d == 6 {
        proof {
            reveal_strlit("6");
        }
        "6"
    } else if d == 7 {
        proof {
            reveal_strlit("7");
        }
        "7"
    } else if d == 8 {
        proof {
            reveal_strlit("8");
        }
        "8"
    } else {
        proof {
            reveal_strlit("9");
        }
        "9"
    }
}

/// Appends the decimal numeral of `n` to `out`.
pub fn append_decimal(out: &mut String, n: u64)
    ensures
        final(out)@ == old(out)@ + decimal(n as nat),
    decreases n,
{
    if n >= 10 {
        append_decimal(out, n / 10);
    }
    out.append(digit_str(n % 10));
    assert(final(out)@ =~= old(out)@ + decimal(n as nat)) by {
        if n >= 10 {
            assert(decimal(n as nat) == decimal((n / 10) as nat).push(digit_char((n % 10) as int)));
        }
    }
}

/// Position of the first line break at or after `from`, or the length of
/// `s` when there is none: the end of the line that starts at `from`.
pub open spec fn line_end(s: Seq<char>, from: int) -> int
    decreases s.len() - from,
{
    if from >= s.len() {
        s.len() as int
    } else if s[from] == '\n' {
        from
    } else {
        line_end(s, from + 1)
    }
}

/// The end of the line of `s` that starts at `from`.
pub fn find_line_end(s: &Vec<char>, from: usize) -> (end: usize)
    requires
        from <= s@.len(),
    ensures
        end == line_end(s@, from as int),
        from <= end <= s@.len(),
{
    let mut i = from;
    while i < s.len() && s[i] != '\n'
        invariant
            from <= i <= s@.len(),
            line_end(s@, from as int) == line_end(s@, i as int),
        decreases s@.len() - i,
    {
        i = i + 1;
    }
    i
}

/// `ws` joined by single spaces.
pub open spec fn spaced(ws: Seq<Seq<char>>) -> Seq<char>
    decreases ws.len(),
{
    if ws.len() == 0 {
        Seq::empty()
    } else if ws.len() == 1 {
        ws[0]
    } else {
        spaced(ws.drop_last()) + seq![' '] + ws.last()
    }
}

/// `w` is a non-empty run of non-whitespace characters.
pub open spec fn is_plain_word(w: Seq<char>) -> bool {
    w.len() > 0 && forall|i: int| 0 <= i < w.len() ==> !is_space(#[trigger] w[i])
}

/// The scan of a prefix depends only on the characters of the prefix.
proof fn lemma_scan_words_prefix(s: Seq<char>, t: Seq<char>, n: int)
    requires
        0 <= n <= s.len(),
        n <= t.len(),
        forall|i: int| 0 <= i < n ==> s[i] == t[i],
    ensures
        scan_words(s, n) == scan_words(t, n),
    decreases n,
{
    if n > 0 {
        lemma_scan_words_prefix(s, t, n - 1);
    }
}

/// Scanning a run of non-whitespace characters that starts at `p` after
/// whitespace (no word open) opens one word at `p` and keeps it open.
proof fn lemma_scan_words_run(s: Seq<char>, p: int, k: int)
    requires
        0 <= p,
        1 <= k,
        p + k <= s.len(),
        scan_words(s, p).1 is None,
        forall|i: int| p <= i < p + k ==> !is_space(#[trigger] s[i]),
    ensures
        scan_words(s, p + k) == (scan_words(s, p).0, Some(p)),
    decreases k,
{
    if k > 1 {
        lemma_scan_words_run(s, p, k - 1);
    }
}

/// Scanning the words of `ws` joined by single spaces: all but the last
/// word are closed spans holding the words, and the last is still open.
proof fn lemma_scan_spaced(ws: Seq<Seq<char>>)
    requires
        ws.len() > 0,
        forall|k: int| 0 <= k < ws.len() ==> is_plain_word(#[trigger] ws[k]),
    ensures
        ({
            let t = spaced(ws);
            let (done, open) = scan_words(t, t.len() as int);
            &&& done.len() == ws.len() - 1
            &&& forall|k: int|
                0 <= k < done.len() ==> t.subrange(
                    (#[trigger] done[k]).0,
                    done[k].1,
                ) == ws[k]
            &&& open matches Some(st) && 0 <= st <= t.len() && t.subrange(st, t.len() as int)
                == ws.last()
        }),
    decreases ws.len(),
{
    let t = spaced(ws);
    if ws.len() == 1 {
        assert(is_plain_word(ws[0]));
        lemma_scan_words_run(t, 0, t.len() as int);
        assert(t.subrange(0, t.len() as int) =~= ws.last());
    } else {
        let prev = ws.drop_last();
        assert forall|k: int| 0 <= k < prev.len() implies is_plain_word(#[trigger] prev[k]) by {
            assert(prev[k] == ws[k]);
        }
        lemma_scan_spaced(prev);
        let t0 = spaced(prev);
        let w = ws.last();
        assert(is_plain_word(ws[ws.len() - 1]));
        let n0 = t0.len() as int;
        assert(t == t0 + seq![' '] + w);
        lemma_scan_words_prefix(t0, t, n0);
        let (done0, open0) = scan_words(t0, n0);
        let st0 = open0->0;
        lemma_scan_words_bounds(t0, n0);
        assert(t[n0] == ' ');
        assert(is_space(' '));
        assert(scan_words(t, n0 + 1) == (done0.push((st0, n0)), None::<int>));
        assert forall|i: int| n0 + 1 <= i < n0 + 1 + w.len() implies !is_space(#[trigger] t[i]) by {
            assert(t[i] == w[i - n0 - 1]);
        }
        lemma_scan_words_run(t, n0 + 1, w.len() as int);
        let (done, open) = scan_words(t, t.len() as int);
        assert(done == done0.push((st0, n0)));
        assert forall|k: int| 0 <= k < done.len() implies t.subrange(
            (#[trigger] done[k]).0,
            done[k].1,
        ) == ws[k] by {
            if k < done0.len() {
                assert(t.subrange(done0[k].0, done0[k].1) =~= t0.subrange(done0[k].0, done0[k].1));
                assert(prev[k] == ws[k]);
            } else {
                assert(t.subrange(st0, n0) =~= t0.subrange(st0, n0));
                assert(prev.last() == ws[k]);
            }
        }
        assert(t.subrange(n0 + 1, t.len() as int) =~= w);
    }
}

/// The words of plain words joined by single spaces are those words.
pub proof fn lemma_words_of_spaced(ws: Seq<Seq<char>>)
    requires
        forall|k: int| 0 <= k < ws.len() ==> is_plain_word(#[trigger] ws[k]),
    ensures
        words(spaced(ws)) == ws,
{
    if ws.len() == 0 {
        assert(words(spaced(ws)) =~= ws);
    } else {
        lemma_scan_spaced(ws);
        let t = spaced(ws);
        let spans = word_spans(t);
        assert(spans.len() == ws.len());
        assert forall|k: int| 0 <= k < ws.len() implies words(t)[k] == ws[k] by {
            if k < ws.len() - 1 {
                assert(spans[k] == scan_words(t, t.len() as int).0[k]);
            }
        }
        assert(words(t) =~= ws);
    }
}

/// Non-empty words joined by single spaces make a non-empty text when there
/// is at least one word.
pub proof fn lemma_spaced_len(ws: Seq<Seq<char>>)
    requires
        ws.len() > 0,
        is_plain_word(ws[0]),
    ensures
        spaced(ws).len() > 0,
    decreases ws.len(),
{
    if ws.len() > 1 {
        assert(ws.drop_last()[0] == ws[0]);
        lemma_spaced_len(ws.drop_last());
    }
}

/// Words joined by single spaces hold no line break.
pub proof fn lemma_spaced_no_line_break(ws: Seq<Seq<char>>)
    requires
        forall|k: int| 0 <= k < ws.len() ==> is_plain_word(#[trigger] ws[k]),
    ensures
        forall|i: int| 0 <= i < spaced(ws).len() ==> #[trigger] spaced(ws)[i] != '\n',
    decreases ws.len(),
{
    if ws.len() == 1 {
        assert(is_plain_word(ws[0]));
        assert forall|i: int| 0 <= i < spaced(ws).len() implies #[trigger] spaced(ws)[i] != '\n' by {
            assert(!is_space(ws[0][i]));
        }
    } else if ws.len() > 1 {
        let prev = ws.drop_last();
        assert forall|k: int| 0 <= k < prev.len() implies is_plain_word(#[trigger] prev[k]) by {
            assert(prev[k] == ws[k]);
        }
        lemma_spaced_no_line_break(prev);
        let t0 = spaced(prev);
        let w = ws.last();
        assert(is_plain_word(ws[ws.len() - 1]));
        assert forall|i: int| 0 <= i < spaced(ws).len() implies #[trigger] spaced(ws)[i] != '\n' by {
            if i < t0.len() {
                assert(spaced(ws)[i] == t0[i]);
            } else if i > t0.len() {
                assert(spaced(ws)[i] == w[i - t0.len() - 1]);
                assert(!is_space(w[i - t0.len() - 1]));
            }
        }
    }
}

/// The character for digit `d` is an ASCII digit of value `d`.
proof fn lemma_digit_char(d: int)
    requires
        0 <= d < 10,
    ensures
        is_digit(digit_char(d)),
        digit_value(digit_char(d)) == d,
{
    assert('0' as u32 == 48 && '1' as u32 == 49 && '2' as u32 == 50 && '3' as u32 == 51 && '4' as u32
        == 52 && '5' as u32 == 53 && '6' as u32 == 54 && '7' as u32 == 55 && '8' as u32 == 56
        && '9' as u32 == 57);
}

/// The decimal numeral of `n` is a run of digits spelling `n`.
pub proof fn lemma_decimal_digits(n: nat)
    ensures
        is_numeral(decimal(n)),
        digits_value(decimal(n)) == n,
    decreases n,
{
    lemma_digit_char((n % 10) as int);
    assert((n / 10) * 10 + n % 10 == n);
    if n < 10 {
        let d = decimal(n);
        assert(n % 10 == n);
        assert(d.drop_last() =~= Seq::<char>::empty());
        assert(d.last() == digit_char(n as int));
        assert(digits_value(d) == digits_value(d.drop_last()) * 10 + digit_value(d.last()));
    } else {
        lemma_decimal_digits(n / 10);
        let d = decimal(n);
        assert(d.drop_last() =~= decimal(n / 10));
        assert(d.last() == digit_char((n % 10) as int));
        assert(digits_value(d) == digits_value(d.drop_last()) * 10 + digit_value(d.last()));
        assert forall|i: int| 0 <= i < d.len() implies is_digit(#[trigger] d[i]) by {
            if i < d.len() - 1 {
                assert(d[i] == decimal(n / 10)[i]);
            }
        }
    }
}

/// The decimal numeral of a `u32` reads back as that number.
pub proof fn lemma_decimal_reads_back(n: u32)
    ensures
        parse_u32_word(decimal(n as nat)) == Some(n),
        is_plain_word(decimal(n as nat)),
{
    lemma_decimal_digits(n as nat);
    let d = decimal(n as nat);
    assert(is_digit(d[0]));
    assert(unsigned_digits(d) == d);
    assert forall|i: int| 0 <= i < d.len() implies !is_space(#[trigger] d[i]) by {
        assert(is_digit(d[i]));
    }
}

/// A line that runs from `from` to `end` without a break, and ends there
/// with a break or the end of the text, ends at `end`.
pub proof fn lemma_line_end_at(s: Seq<char>, from: int, end: int)
    requires
        0 <= from <= end <= s.len(),
        forall|j: int| from <= j < end ==> s[j] != '\n',
        end == s.len() || s[end] == '\n',
    ensures
        line_end(s, from) == end,
    decreases end - from,
{
    if from < end {
        lemma_line_end_at(s, from + 1, end);
    }
}

/// How signs and stray characters read: a run of ASCII digits `ds` is read
/// the same with a leading `+`; with a leading `-` it is no `u32` and, as an
/// `i32`, the negated value; a word with a character other than a digit
/// after its first is no number; and the empty word, `+` and `-` alone are
/// no number.
pub proof fn lemma_number_word_signs(ds: Seq<char>, junk: Seq<char>, i: int)
    requires
        ds.len() > 0,
        forall|k: int| 0 <= k < ds.len() ==> 48 <= (#[trigger] ds[k]) as u32 <= 57,
        0 < i < junk.len(),
        !(48 <= junk[i] as u32 <= 57),
    ensures
        parse_u32_word(seq!['+'] + ds) == parse_u32_word(ds),
        parse_u32_word(seq!['-'] + ds) is None,
        parse_i32_word(seq!['+'] + ds) == parse_i32_word(ds),
        parse_i32_word(ds) is Some <==> digits_value(ds) <= 0x7FFF_FFFF,
        parse_u32_word(ds) is Some <==> digits_value(ds) <= 0xFFFF_FFFF,
        digits_value(ds) <= 0x8000_0000 ==> parse_i32_word(seq!['-'] + ds) == Some(
            (-digits_value(ds)) as i32,
        ),
        digits_value(ds) > 0x8000_0000 ==> parse_i32_word(seq!['-'] + ds) is None,
        parse_u32_word(junk) is None,
        parse_i32_word(junk) is None,
        parse_u32_word(Seq::empty()) is None,
        parse_i32_word(Seq::empty()) is None,
        parse_u32_word(seq!['+']) is None,
        parse_i32_word(seq!['+']) is None,
        parse_i32_word(seq!['-']) is None,
{
    assert((seq!['+'] + ds).drop_first() =~= ds);
    assert((seq!['-'] + ds).drop_first() =~= ds);
    assert((seq!['+'] + ds)[0] == '+');
    assert((seq!['-'] + ds)[0] == '-');
    assert('+' as u32 == 43 && '-' as u32 == 45);
    assert(ds[0] != '+' && ds[0] != '-');
    assert(unsigned_digits(ds) == ds);
    assert(!is_digit((seq!['-'] + ds)[0]));
    assert(!is_digit(junk[i]));
    if junk[0] == '+' || junk[0] == '-' {
        assert(junk.drop_first()[i - 1] == junk[i]);
    }
    assert(seq!['+'].drop_first() =~= Seq::<char>::empty());
    assert(seq!['-'].drop_first() =~= Seq::<char>::empty());
}

} // verus!
