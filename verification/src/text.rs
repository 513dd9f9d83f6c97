//! Character-level text handling: whitespace, trimming, splitting, and
//! decimal numbers, stated over the `Seq<char>` view of strings.

use vstd::prelude::*;

verus! {

// ─── Whitespace ──────────────────────────────────────────────────────────────

/// The Unicode `White_Space` property (what `char::is_whitespace` decides).
pub open spec fn is_ws(c: char) -> bool {
    let u = c as u32;
    ||| 0x9 <= u <= 0xD
    ||| u == 0x20
    ||| u == 0x85
    ||| u == 0xA0
    ||| u == 0x1680
    ||| 0x2000 <= u <= 0x200A
    ||| u == 0x2028
    ||| u == 0x2029
    ||| u == 0x202F
    ||| u == 0x205F
    ||| u == 0x3000
}

/// Decides `is_ws`.
pub fn is_whitespace(c: char) -> (b: bool)
    ensures
        b == is_ws(c),
{
    let u = c as u32;
    (0x9 <= u && u <= 0xD) || u == 0x20 || u == 0x85 || u == 0xA0 || u == 0x1680 || (0x2000 <= u
        && u <= 0x200A) || u == 0x2028 || u == 0x2029 || u == 0x202F || u == 0x205F || u == 0x3000
}

/// `s` without its leading whitespace.
pub open spec fn trim_start(s: Seq<char>) -> Seq<char>
    decreases s.len(),
{
    if s.len() > 0 && is_ws(s[0]) {
        trim_start(s.drop_first())
    } else {
        s
    }
}

/// `s` without its trailing whitespace.
pub open spec fn trim_end(s: Seq<char>) -> Seq<char>
    decreases s.len(),
{
    if s.len() > 0 && is_ws(s.last()) {
        trim_end(s.drop_last())
    } else {
        s
    }
}

/// `s` without leading and trailing whitespace (`str::trim`).
pub open spec fn trim(s: Seq<char>) -> Seq<char> {
    trim_end(trim_start(s))
}

/// `s` without the leading run of `c` (`str::trim_start_matches` with a char).
pub open spec fn strip_leading(s: Seq<char>, c: char) -> Seq<char>
    decreases s.len(),
{
    if s.len() > 0 && s[0] == c {
        strip_leading(s.drop_first(), c)
    } else {
        s
    }
}

/// `s` without the trailing run of `c` (`str::trim_end_matches` with a char).
pub open spec fn strip_trailing(s: Seq<char>, c: char) -> Seq<char>
    decreases s.len(),
{
    if s.len() > 0 && s.last() == c {
        strip_trailing(s.drop_last(), c)
    } else {
        s
    }
}

/// The characters `s[a..b]` as a new vector.
pub fn slice_chars(s: &Vec<char>, a: usize, b: usize) -> (r: Vec<char>)
    requires
        a <= b <= s.len(),
    ensures
        r@ == s@.subrange(a as int, b as int),
{
    let mut r: Vec<char> = Vec::new();
    let mut i = a;
    while i < b
        invariant
            a <= i <= b <= s.len(),
            r@ == s@.subrange(a as int, i as int),
        decreases b - i,
    {
        r.push(s[i]);
        assert(s@.subrange(a as int, i + 1) == s@.subrange(a as int, i as int).push(s@[i as int]));
        i += 1;
    }
    r
}

/// The characters of `s`.
pub fn chars_of(s: &str) -> (r: Vec<char>)
    ensures
        r@ == s@,
{
    let mut r: Vec<char> = Vec::new();
    for c in it: s.chars()
        invariant
            r@ == it.seq().take(it.index() as int),
            it.seq() == s@,
    {
        r.push(c);
    }
    r
}

proof fn lemma_trim_start_skip(s: Seq<char>, i: int)
    requires
        0 <= i < s.len(),
        is_ws(s[i]),
    ensures
        trim_start(s.skip(i)) == trim_start(s.skip(i + 1)),
{
    assert(s.skip(i).drop_first() =~= s.skip(i + 1));
}

proof fn lemma_trim_end_take(s: Seq<char>, i: int)
    requires
        0 < i <= s.len(),
        is_ws(s[i - 1]),
    ensures
        trim_end(s.take(i)) == trim_end(s.take(i - 1)),
{
    assert(s.take(i).drop_last() =~= s.take(i - 1));
}

/// `trim` on a vector of characters.
pub fn trim_chars(s: &Vec<char>) -> (r: Vec<char>)
    ensures
        r@ == trim(s@),
{
    let n = s.len();
    let mut a: usize = 0;
    assert(s@.skip(0) =~= s@);
    while a < n && is_whitespace(s[a])
        invariant
            a <= n == s.len(),
            trim_start(s@) == trim_start(s@.skip(a as int)),
        decreases n - a,
    {
        proof {
            lemma_trim_start_skip(s@, a as int);
        }
        a += 1;
    }
    let ghost t = s@.skip(a as int);
    assert(trim_start(s@) == t) by {
        assert(s@.skip(a as int) == t);
    }
    let mut b: usize = n;
    assert(t.take(n - a) =~= t);
    while b > a && is_whitespace(s[b - 1])
        invariant
            a <= b <= n == s.len(),
            t == s@.skip(a as int),
            trim_end(t) == trim_end(t.take(b - a)),
        decreases b,
    {
        proof {
            lemma_trim_end_take(t, b - a);
        }
        b -= 1;
    }
    assert(t.take(b - a) =~= s@.subrange(a as int, b as int));
    slice_chars(s, a, b)
}

// ─── Searching and splitting ─────────────────────────────────────────────────

/// Index of the first `c` in `s`.
pub open spec fn find(s: Seq<char>, c: char) -> Option<nat>
    decreases s.len(),
{
    if s.len() == 0 {
        None
    } else if s[0] == c {
        Some(0)
    } else {
        match find(s.drop_first(), c) {
            Some(i) => Some(i + 1),
            None => None,
        }
    }
}

/// `find` gives the first index of `c`, or `None` where `c` does not occur.
pub proof fn lemma_find(s: Seq<char>, c: char, k: int)
    requires
        0 <= k <= s.len(),
        forall|j: int| 0 <= j < k ==> s[j] != c,
        k < s.len() ==> s[k] == c,
    ensures
        find(s, c) == (if k < s.len() { Some(k as nat) } else { None::<nat> }),
    decreases s.len(),
{
    if s.len() > 0 && s[0] != c {
        lemma_find(s.drop_first(), c, k - 1);
    }
}

pub proof fn lemma_find_bound(s: Seq<char>, c: char)
    ensures
        find(s, c) matches Some(i) ==> i < s.len() && s[i as int] == c && forall|j: int|
            0 <= j < i ==> s[j] != c,
        find(s, c) is None ==> forall|j: int| 0 <= j < s.len() ==> s[j] != c,
    decreases s.len(),
{
    if s.len() > 0 && s[0] != c {
        lemma_find_bound(s.drop_first(), c);
        assert forall|j: int| 1 <= j < s.len() implies s[j] == s.drop_first()[j - 1] by {}
    }
}

/// The pieces of `s` between occurrences of `c` (`str::split` with a char).
pub open spec fn split_on(s: Seq<char>, c: char) -> Seq<Seq<char>>
    decreases s.len(),
{
    match find(s, c) {
        Some(i) => {
            proof {
                lemma_find_bound(s, c);
            }
            seq![s.take(i as int)] + split_on(s.skip((i + 1) as int), c)
        },
        None => seq![s],
    }
}

/// The views of a sequence of character vectors.
pub open spec fn views(v: Seq<Vec<char>>) -> Seq<Seq<char>> {
    v.map_values(|x: Vec<char>| x@)
}

pub proof fn lemma_views_push(v: Seq<Vec<char>>, x: Vec<char>)
    ensures
        views(v.push(x)) == views(v).push(x@),
{
    assert(views(v.push(x)) =~= views(v).push(x@));
}

/// `split_on` on a vector of characters.
pub fn split_chars(s: &Vec<char>, c: char) -> (r: Vec<Vec<char>>)
    ensures
        views(r@) == split_on(s@, c),
{
    let n = s.len();
    let mut r: Vec<Vec<char>> = Vec::new();
    let mut start: usize = 0;
    let mut i: usize = 0;
    assert(s@.skip(0) =~= s@);
    assert(views(r@) =~= Seq::<Seq<char>>::empty());
    while i < n
        invariant
            start <= i <= n == s.len(),
            split_on(s@, c) == views(r@) + split_on(s@.skip(start as int), c),
            forall|j: int| start <= j < i ==> s@[j] != c,
        decreases n - i,
    {
        if s[i] == c {
            let piece = slice_chars(s, start, i);
            proof {
                let t = s@.skip(start as int);
                lemma_find(t, c, i - start);
                assert(t.take(i - start) =~= piece@);
                assert(t.skip(i - start + 1) =~= s@.skip(i + 1));
                lemma_views_push(r@, piece);
                assert(views(r@) + split_on(t, c) =~= views(r@).push(piece@) + split_on(
                    s@.skip(i + 1),
                    c,
                ));
            }
            r.push(piece);
            start = i + 1;
        }
        i += 1;
    }
    let piece = slice_chars(s, start, n);
    proof {
        let t = s@.skip(start as int);
        lemma_find(t, c, n - start);
        assert(t =~= piece@);
        lemma_views_push(r@, piece);
    }
    r.push(piece);
    r
}

/// Whether `c` separates words: ASCII space or tab.
pub open spec fn is_sep(c: char) -> bool {
    c == ' ' || c == '\t'
}

/// Decides `is_sep`.
pub fn is_separator(c: char) -> (b: bool)
    ensures
        b == is_sep(c),
{
    c == ' ' || c == '\t'
}

/// Whether `c` is a note letter, `A` to `G` in either case.
pub open spec fn is_note_letter(c: char) -> bool {
    ('A' <= c <= 'G') || ('a' <= c <= 'g')
}

/// Whether a word starts at index `j` of `s`: at the start of the text, or
/// after whitespace, `{` or `,`.
pub open spec fn word_starts_at(s: Seq<char>, j: int) -> bool {
    j == 0 || is_ws(s[j - 1]) || s[j - 1] == '{' || s[j - 1] == ','
}

/// Whether the character at index `i` of `s` is a sharp sign: a `#` right
/// after a note letter that starts a word (as in `C#4`).
pub open spec fn is_sharp_sign(s: Seq<char>, i: int) -> bool {
    s[i] == '#' && i >= 1 && is_note_letter(s[i - 1]) && word_starts_at(s, i - 1)
}

/// Whether index `i` of `s` starts a comment: a `#` that is no sharp sign.
pub open spec fn starts_comment(s: Seq<char>, i: int) -> bool {
    s[i] == '#' && !is_sharp_sign(s, i)
}

fn sharp_at(s: &Vec<char>, i: usize) -> (b: bool)
    requires
        i < s.len(),
    ensures
        b == is_sharp_sign(s@, i as int),
{
    if s[i] != '#' || i == 0 {
        return false;
    }
    let l = s[i - 1];
    if !(('A' <= l && l <= 'G') || ('a' <= l && l <= 'g')) {
        return false;
    }
    i == 1 || is_whitespace(s[i - 2]) || s[i - 2] == '{' || s[i - 2] == ','
}

/// The index of the first comment start in `s` at or after `from` (the length
/// of `s` where there is none).
pub open spec fn comment_index(s: Seq<char>, from: int) -> int
    decreases s.len() - from,
{
    if from < 0 || from >= s.len() {
        s.len() as int
    } else if starts_comment(s, from) {
        from
    } else {
        comment_index(s, from + 1)
    }
}

/// `s` without its comment: what comes before the first `#` that is no
/// sharp sign.
pub open spec fn uncommented(s: Seq<char>) -> Seq<char> {
    s.take(comment_index(s, 0))
}

pub proof fn lemma_comment_index(s: Seq<char>, from: int, k: int)
    requires
        0 <= from <= k <= s.len(),
        forall|j: int| from <= j < k ==> !starts_comment(s, j),
        k < s.len() ==> starts_comment(s, k),
    ensures
        comment_index(s, from) == k,
    decreases k - from,
{
    if from < k {
        lemma_comment_index(s, from + 1, k);
    }
}

/// `uncommented` on a vector of characters.
pub fn strip_comment(s: &Vec<char>) -> (r: Vec<char>)
    ensures
        r@ == uncommented(s@),
{
    let n = s.len();
    let mut i: usize = 0;
    while i < n && !(s[i] == '#' && !sharp_at(s, i))
        invariant
            i <= n == s.len(),
            forall|j: int| 0 <= j < i ==> !starts_comment(s@, j),
        decreases n - i,
    {
        i += 1;
    }
    proof {
        lemma_comment_index(s@, 0, i as int);
    }
    assert(s@.take(i as int) =~= s@.subrange(0, i as int));
    slice_chars(s, 0, i)
}

/// Length of the run of characters other than separators that starts `s`.
pub open spec fn word_len(s: Seq<char>) -> nat
    decreases s.len(),
{
    if s.len() == 0 || is_sep(s[0]) {
        0
    } else {
        1 + word_len(s.drop_first())
    }
}

pub proof fn lemma_word_len(s: Seq<char>, k: int)
    requires
        0 <= k <= s.len(),
        forall|j: int| 0 <= j < k ==> !is_sep(s[j]),
        k < s.len() ==> is_sep(s[k]),
    ensures
        word_len(s) == k,
    decreases s.len(),
{
    if s.len() > 0 && !is_sep(s[0]) {
        lemma_word_len(s.drop_first(), k - 1);
    }
}

pub proof fn lemma_word_len_bound(s: Seq<char>)
    ensures
        word_len(s) <= s.len(),
        s.len() > 0 && !is_sep(s[0]) ==> word_len(s) > 0,
    decreases s.len(),
{
    if s.len() > 0 && !is_sep(s[0]) {
        lemma_word_len_bound(s.drop_first());
    }
}

/// The words of `s`: the non-empty runs between separators (ASCII space and
/// tab).
pub open spec fn words(s: Seq<char>) -> Seq<Seq<char>>
    decreases s.len(),
{
    if s.len() == 0 {
        seq![]
    } else if is_sep(s[0]) {
        words(s.drop_first())
    } else {
        proof {
            lemma_word_len_bound(s);
        }
        seq![s.take(word_len(s) as int)] + words(s.skip(word_len(s) as int))
    }
}

/// `words` on a vector of characters.
pub fn words_of(s: &Vec<char>) -> (r: Vec<Vec<char>>)
    ensures
        views(r@) == words(s@),
{
    let n = s.len();
    let mut r: Vec<Vec<char>> = Vec::new();
    let mut i: usize = 0;
    assert(s@.skip(0) =~= s@);
    assert(views(r@) =~= Seq::<Seq<char>>::empty());
    while i < n
        invariant
            i <= n == s.len(),
            words(s@) == views(r@) + words(s@.skip(i as int)),
        decreases n - i,
    {
        if is_separator(s[i]) {
            assert(s@.skip(i as int).drop_first() =~= s@.skip(i + 1));
            i += 1;
        } else {
            let start = i;
            while i < n && !is_separator(s[i])
                invariant
                    start <= i <= n == s.len(),
                    forall|j: int| start <= j < i ==> !is_sep(s@[j]),
                decreases n - i,
            {
                i += 1;
            }
            let w = slice_chars(s, start, i);
            proof {
                let t = s@.skip(start as int);
                lemma_word_len(t, i - start);
                assert(t.take(i - start) =~= w@);
                assert(t.skip(i - start) =~= s@.skip(i as int));
                lemma_views_push(r@, w);
                assert(views(r@) + words(t) =~= views(r@).push(w@) + words(s@.skip(i as int)));
            }
            r.push(w);
        }
    }
    assert(s@.skip(n as int) =~= Seq::<char>::empty());
    assert(views(r@) + Seq::<Seq<char>>::empty() =~= views(r@));
    r
}

proof fn lemma_strip_leading_skip(s: Seq<char>, c: char, i: int)
    requires
        0 <= i < s.len(),
        s[i] == c,
    ensures
        strip_leading(s.skip(i), c) == strip_leading(s.skip(i + 1), c),
{
    assert(s.skip(i).drop_first() =~= s.skip(i + 1));
}

proof fn lemma_strip_trailing_take(s: Seq<char>, c: char, i: int)
    requires
        0 < i <= s.len(),
        s[i - 1] == c,
    ensures
        strip_trailing(s.take(i), c) == strip_trailing(s.take(i - 1), c),
{
    assert(s.take(i).drop_last() =~= s.take(i - 1));
}

/// `s` without its leading run of `open` and then without its trailing run
/// of `close`.
pub fn strip_delimiters(s: &Vec<char>, open: char, close: char) -> (r: Vec<char>)
    ensures
        r@ == strip_trailing(strip_leading(s@, open), close),
{
    let n = s.len();
    let mut a: usize = 0;
    assert(s@.skip(0) =~= s@);
    while a < n && s[a] == open
        invariant
            a <= n == s.len(),
            strip_leading(s@, open) == strip_leading(s@.skip(a as int), open),
        decreases n - a,
    {
        proof {
            lemma_strip_leading_skip(s@, open, a as int);
        }
        a += 1;
    }
    let ghost t = s@.skip(a as int);
    let mut b: usize = n;
    assert(t.take(n - a) =~= t);
    while b > a && s[b - 1] == close
        invariant
            a <= b <= n == s.len(),
            t == s@.skip(a as int),
            strip_trailing(t, close) == strip_trailing(t.take(b - a), close),
        decreases b,
    {
        proof {
            lemma_strip_trailing_take(t, close, b - a);
        }
        b -= 1;
    }
    assert(t.take(b - a) =~= s@.subrange(a as int, b as int));
    slice_chars(s, a, b)
}

// ─── Case ────────────────────────────────────────────────────────────────────

/// The code of `c` after mapping ASCII upper-case letters to lower case.
pub open spec fn ascii_lower(c: char) -> u32 {
    if 'A' <= c <= 'Z' {
        (c as u32 + 32) as u32
    } else {
        c as u32
    }
}

/// `s` and `w` are equal up to ASCII case (`str::eq_ignore_ascii_case`).
pub open spec fn eq_ignore_case(s: Seq<char>, w: Seq<char>) -> bool {
    s.len() == w.len() && forall|i: int| 0 <= i < s.len() ==> ascii_lower(s[i]) == ascii_lower(w[i])
}

/// Whether the Unicode lower case of `c` is the ASCII lower-case letter or
/// symbol `k`: `c` is `k`, its upper-case form, or, for `k`, KELVIN SIGN
/// (U+212A), whose lower case is `k`.
pub open spec fn lowers_to(c: char, k: char) -> bool {
    ascii_lower(c) == k as u32 || (k == 'k' && c as u32 == 0x212A)
}

/// The Unicode lower case of `s` is `kw`, a word of lower-case ASCII letters.
pub open spec fn is_keyword(s: Seq<char>, kw: Seq<char>) -> bool {
    s.len() == kw.len() && forall|i: int| 0 <= i < s.len() ==> lowers_to(s[i], kw[i])
}

pub fn ascii_lower_code(c: char) -> (u: u32)
    ensures
        u == ascii_lower(c),
{
    let u = c as u32;
    if 0x41 <= u && u <= 0x5A {
        u + 32
    } else {
        u
    }
}

/// Decides `eq_ignore_case`.
pub fn equal_ignoring_case(s: &Vec<char>, w: &[char]) -> (b: bool)
    ensures
        b == eq_ignore_case(s@, w@),
{
    if s.len() != w.len() {
        return false;
    }
    let mut i: usize = 0;
    while i < s.len()
        invariant
            i <= s.len() == w.len(),
            forall|j: int| 0 <= j < i ==> ascii_lower(s@[j]) == ascii_lower(w@[j]),
        decreases s.len() - i,
    {
        if ascii_lower_code(s[i]) != ascii_lower_code(w[i]) {
            return false;
        }
        i += 1;
    }
    true
}

/// Decides `is_keyword`.
pub fn keyword_is(s: &Vec<char>, kw: &[char]) -> (b: bool)
    ensures
        b == is_keyword(s@, kw@),
{
    if s.len() != kw.len() {
        return false;
    }
    let mut i: usize = 0;
    while i < s.len()
        invariant
            i <= s.len() == kw.len(),
            forall|j: int| 0 <= j < i ==> lowers_to(s@[j], kw@[j]),
        decreases s.len() - i,
    {
        let k = kw[i];
        if !(ascii_lower_code(s[i]) == k as u32 || (k == 'k' && s[i] as u32 == 0x212A)) {
            return false;
        }
        i += 1;
    }
    true
}

/// What `str::to_lowercase` returns for the string whose characters are `s`.
pub uninterp spec fn lowercase(s: Seq<char>) -> Seq<char>;

/// What `str::to_uppercase` returns for the string whose characters are `s`.
pub uninterp spec fn uppercase(s: Seq<char>) -> Seq<char>;

/// Calls `str::to_lowercase`; the result is `lowercase` of the argument.
#[verifier::external_body]
pub(crate) fn to_lowercase(s: &Vec<char>) -> (r: String)
    ensures
        r@ == lowercase(s@),
{
    let t: String = s.iter().collect();
    t.to_lowercase()
}

/// Calls `str::to_uppercase`; the result is `uppercase` of the argument.
#[verifier::external_body]
pub(crate) fn to_uppercase(s: &Vec<char>) -> (r: String)
    ensures
        r@ == uppercase(s@),
{
    let t: String = s.iter().collect();
    t.to_uppercase()
}

// ─── Numbers ─────────────────────────────────────────────────────────────────

pub open spec fn is_digit(c: char) -> bool {
    '0' <= c <= '9'
}

pub open spec fn digit_value(c: char) -> nat {
    (c as u32 - 48) as nat
}

pub open spec fn all_digits(s: Seq<char>) -> bool {
    forall|i: int| 0 <= i < s.len() ==> is_digit(s[i])
}

/// The number that the decimal digits `s` write.
pub open spec fn digits_value(s: Seq<char>) -> nat
    decreases s.len(),
{
    if s.len() == 0 {
        0
    } else {
        digits_value(s.drop_last()) * 10 + digit_value(s.last())
    }
}

/// What `str::parse` returns for an unsigned integer type whose largest value
/// is `max`: an optional `+`, then one or more decimal digits, of value at
/// most `max`.
pub open spec fn parse_unsigned(s: Seq<char>, max: nat) -> Option<nat> {
    let d = if s.len() > 0 && s[0] == '+' {
        s.drop_first()
    } else {
        s
    };
    if d.len() > 0 && all_digits(d) && digits_value(d) <= max {
        Some(digits_value(d))
    } else {
        None
    }
}

/// Reads the digits `s[from..]`: `None` where a character there is no
/// decimal digit, otherwise their value, capped at `max + 1`.
pub fn digits_capped(s: &Vec<char>, from: usize, max: u32) -> (r: Option<u64>)
    requires
        from <= s.len(),
    ensures
        all_digits(s@.skip(from as int)) <==> r is Some,
        r matches Some(v) ==> v == if digits_value(s@.skip(from as int)) <= max {
            digits_value(s@.skip(from as int))
        } else {
            max as nat + 1
        },
{
    let n = s.len();
    let m: u64 = max as u64 + 1;
    let mut acc: u64 = 0;
    let mut i = from;
    assert(s@.subrange(from as int, from as int) =~= Seq::<char>::empty());
    while i < n
        invariant
            from <= i <= n == s.len(),
            m == max + 1,
            all_digits(s@.subrange(from as int, i as int)),
            acc == if digits_value(s@.subrange(from as int, i as int)) < m {
                digits_value(s@.subrange(from as int, i as int))
            } else {
                m as nat
            },
        decreases n - i,
    {
        let c = s[i];
        if !('0' <= c && c <= '9') {
            assert(!is_digit(s@.skip(from as int)[i - from]));
            return None;
        }
        let d = (c as u32 - 48) as u64;
        let ghost prev = s@.subrange(from as int, i as int);
        let ghost next = s@.subrange(from as int, i + 1);
        assert(next.drop_last() =~= prev);
        assert(digits_value(next) == digits_value(prev) * 10 + d);
        let v = acc * 10 + d;
        acc = if v < m { v } else { m };
        i += 1;
    }
    assert(s@.subrange(from as int, n as int) =~= s@.skip(from as int));
    Some(acc)
}

/// Decides `parse_unsigned`, for a `max` that fits in `u32`.
pub fn parse_unsigned_chars(s: &Vec<char>, max: u32) -> (r: Option<u32>)
    ensures
        r matches Some(v) ==> parse_unsigned(s@, max as nat) == Some(v as nat),
        r is None ==> parse_unsigned(s@, max as nat) is None,
{
    let from: usize = if s.len() > 0 && s[0] == '+' {
        1
    } else {
        0
    };
    assert(s@.skip(from as int) =~= (if s@.len() > 0 && s@[0] == '+' {
        s@.drop_first()
    } else {
        s@
    }));
    if from == s.len() {
        return None;
    }
    match digits_capped(s, from, max) {
        Some(v) => {
            if v <= max as u64 {
                Some(v as u32)
            } else {
                None
            }
        },
        None => None,
    }
}

/// The decimal digit character for `d < 10`.
pub open spec fn digit_char(d: nat) -> char {
    (d + 48) as char
}

/// The decimal form of `n`, without leading zeros.
pub open spec fn decimal(n: nat) -> Seq<char>
    decreases n,
{
    if n < 10 {
        seq![digit_char(n)]
    } else {
        decimal(n / 10).push(digit_char(n % 10))
    }
}

// ─── Building strings ────────────────────────────────────────────────────────

/// Calls `String::push`: appends `c`.
#[verifier::external_body]
pub(crate) fn push_char(s: &mut String, c: char)
    ensures
        final(s)@ == old(s)@.push(c),
{
    s.push(c);
}

/// Appends the characters of `v` to `s`.
pub fn push_chars(s: &mut String, v: &Vec<char>)
    ensures
        final(s)@ == old(s)@ + v@,
{
    let ghost start = s@;
    let mut i: usize = 0;
    while i < v.len()
        invariant
            i <= v.len(),
            s@ == start + v@.take(i as int),
        decreases v.len() - i,
    {
        push_char(s, v[i]);
        assert(v@.take(i + 1) == v@.take(i as int).push(v@[i as int]));
        i += 1;
    }
    assert(v@.take(v.len() as int) =~= v@);
}

/// Appends the decimal form of `n` to `s`.
pub fn push_decimal(s: &mut String, n: usize)
    ensures
        final(s)@ == old(s)@ + decimal(n as nat),
    decreases n,
{
    if n >= 10 {
        push_decimal(s, n / 10);
    }
    let d = (n % 10) as u8;
    push_char(s, (d + 48) as char);
    assert(s@ =~= old(s)@ + decimal(n as nat));
}

/// Decides `is_digit`.
pub fn is_decimal_digit(c: char) -> (b: bool)
    ensures
        b == is_digit(c),
{
    '0' <= c && c <= '9'
}

/// `a`, the characters of `mid`, then `b`.
pub fn message_with(a: &str, mid: &Vec<char>, b: &str) -> (r: String)
    ensures
        r@ == a@ + mid@ + b@,
{
    let mut r = String::new();
    r.append(a);
    push_chars(&mut r, mid);
    r.append(b);
    r
}

/// `a`, `mid`, then `b`.
pub fn message_with_str(a: &str, mid: &str, b: &str) -> (r: String)
    ensures
        r@ == a@ + mid@ + b@,
{
    let mut r = String::new();
    r.append(a);
    r.append(mid);
    r.append(b);
    r
}

/// A `String` holding the characters of `s`.
pub fn text_of(s: &str) -> (r: String)
    ensures
        r@ == s@,
{
    let mut r = String::new();
    r.append(s);
    assert(r@ =~= s@);
    r
}

proof fn lemma_trim_start_first(s: Seq<char>)
    ensures
        trim_start(s).len() > 0 ==> !is_ws(trim_start(s)[0]),
    decreases s.len(),
{
    if s.len() > 0 && is_ws(s[0]) {
        lemma_trim_start_first(s.drop_first());
    }
}

proof fn lemma_trim_end_prefix(u: Seq<char>)
    ensures
        trim_end(u).len() <= u.len(),
        forall|i: int| 0 <= i < trim_end(u).len() ==> trim_end(u)[i] == u[i],
    decreases u.len(),
{
    if u.len() > 0 && is_ws(u.last()) {
        lemma_trim_end_prefix(u.drop_last());
        assert forall|i: int| 0 <= i < trim_end(u).len() implies trim_end(u)[i] == u[i] by {
            assert(u.drop_last()[i] == u[i]);
        }
    }
}

/// A trimmed text that is not empty starts with a character that is not
/// whitespace, and so has at least one word.
pub proof fn lemma_trimmed_has_words(s: Seq<char>)
    requires
        trim(s).len() > 0,
    ensures
        !is_ws(trim(s)[0]),
        words(trim(s)).len() > 0,
        0 < word_len(trim(s)) <= trim(s).len(),
        words(trim(s))[0] == trim(s).take(word_len(trim(s)) as int),
{
    lemma_trim_start_first(s);
    lemma_trim_end_prefix(trim_start(s));
    let t = trim(s);
    assert(!is_ws(t[0]));
    assert(!is_sep(t[0]));
    lemma_word_len_bound(t);
    assert(words(t) == seq![t.take(word_len(t) as int)] + words(t.skip(word_len(t) as int)));
}

/// The decimal form of `n` is a non-empty run of digits that reads back as
/// `n`.
pub proof fn lemma_decimal(n: nat)
    ensures
        decimal(n).len() >= 1,
        all_digits(decimal(n)),
        digits_value(decimal(n)) == n,
    decreases n,
{
    let d = decimal(n);
    if n < 10 {
        assert(d.drop_last() =~= Seq::<char>::empty());
        assert(digit_char(n) as u32 == n + 48);
        assert(digits_value(d.drop_last()) == 0);
        assert(digit_value(d.last()) == n);
    } else {
        lemma_decimal(n / 10);
        assert(d.drop_last() =~= decimal(n / 10));
        assert(digit_char(n % 10) as u32 == n % 10 + 48);
        assert(digit_value(d.last()) == n % 10);
        assert forall|i: int| 0 <= i < d.len() implies is_digit(d[i]) by {
            if i < d.len() - 1 {
                assert(d[i] == decimal(n / 10)[i]);
            }
        }
    }
}

/// A text that begins and ends with a character that is not whitespace is
/// its own trim.
pub proof fn lemma_trim_noop(s: Seq<char>)
    requires
        s.len() > 0,
        !is_ws(s[0]),
        !is_ws(s.last()),
    ensures
        trim(s) == s,
{
    assert(trim_start(s) == s);
}

/// A `#` added after text that does not end with a note letter starts a
/// comment: the text without its comment stays as it was.
pub proof fn lemma_uncommented_append(s: Seq<char>, rest: Seq<char>)
    requires
        s.len() == 0 || !is_note_letter(s.last()),
    ensures
        uncommented(s + seq!['#'] + rest) == uncommented(s),
{
    let t = s + seq!['#'] + rest;
    let k = comment_index(s, 0);
    lemma_comment_index_bound(s, 0);
    assert forall|j: int| 0 <= j < s.len() implies starts_comment(t, j) == starts_comment(s, j) by {
        assert(t[j] == s[j]);
        if j > 0 {
            assert(t[j - 1] == s[j - 1]);
        }
        if j > 1 {
            assert(t[j - 2] == s[j - 2]);
        }
    }
    if k < s.len() {
        lemma_comment_index(t, 0, k);
        assert(t.take(k) =~= s.take(k));
    } else {
        let e = s.len();
        if e > 0 {
            assert(t[e - 1] == s.last());
        }
        assert(starts_comment(t, e as int));
        lemma_comment_index(t, 0, e as int);
        assert(t.take(e as int) =~= s);
        assert(s.take(k) =~= s);
    }
}

pub proof fn lemma_comment_index_bound(s: Seq<char>, from: int)
    requires
        0 <= from <= s.len(),
    ensures
        from <= comment_index(s, from) <= s.len(),
        forall|j: int| from <= j < comment_index(s, from) ==> !starts_comment(s, j),
        comment_index(s, from) < s.len() ==> starts_comment(s, comment_index(s, from)),
    decreases s.len() - from,
{
    if from < s.len() && !starts_comment(s, from) {
        lemma_comment_index_bound(s, from + 1);
    }
}

} // verus!
