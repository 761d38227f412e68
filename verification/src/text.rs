use vstd::prelude::*;

verus! {

/// Appends a character with `String::push`; the contract is what its documentation states.
#[verifier::external_body]
pub(crate) fn string_push(s: &mut String, c: char)
    ensures
        final(s)@ == old(s)@.push(c),
{
    s.push(c);
}

/// The text an optional string holds, if any.
pub open spec fn opt_text(o: Option<String>) -> Option<Seq<char>> {
    match o {
        Some(s) => Some(s@),
        None => None,
    }
}

/// The characters of a string slice, in order.
pub fn chars_of(s: &str) -> (r: Vec<char>)
    ensures
        r@ == s@,
{
    let n = s.unicode_len();
    let mut r: Vec<char> = Vec::new();
    for i in 0..n
        invariant
            n == s@.len(),
            r@ == s@.take(i as int),
    {
        let c = s.get_char(i);
        r.push(c);
        proof {
            assert(s@.take(i + 1) =~= s@.take(i as int).push(c));
        }
    }
    proof {
        assert(s@.take(n as int) =~= s@);
    }
    r
}

/// A string made of the given characters.
pub fn string_from_chars(v: &Vec<char>) -> (r: String)
    ensures
        r@ == v@,
{
    let mut r = String::new();
    let n = v.len();
    for i in 0..n
        invariant
            n == v.len(),
            r@ == v@.take(i as int),
    {
        string_push(&mut r, v[i]);
        proof {
            assert(v@.take(i + 1) =~= v@.take(i as int).push(v@[i as int]));
        }
    }
    proof {
        assert(v@.take(n as int) =~= v@);
    }
    r
}

/// A string made of the characters of `v` from `start` up to `end`.
pub fn string_from_range(v: &Vec<char>, start: usize, end: usize) -> (r: String)
    requires
        start <= end <= v.len(),
    ensures
        r@ == v@.subrange(start as int, end as int),
{
    let mut r = String::new();
    let mut i = start;
    while i < end
        invariant
            start <= i <= end <= v.len(),
            r@ == v@.subrange(start as int, i as int),
        decreases end - i,
    {
        string_push(&mut r, v[i]);
        proof {
            assert(v@.subrange(start as int, i + 1) =~= v@.subrange(start as int, i as int).push(v@[i as int]));
        }
        i = i + 1;
    }
    r
}

/// A string holding the concatenation of two character sequences.
pub fn concat_str(a: &str, b: &str) -> (r: String)
    ensures
        r@ == a@ + b@,
{
    let mut r = String::from_str(a);
    r.append(b);
    r
}

// ---------------------------------------------------------------------------------------------
// Characters

/// ASCII lowercase of one character (`char::to_ascii_lowercase`).
pub open spec fn ascii_lower(c: char) -> char {
    if 'A' <= c <= 'Z' { ((c as u32) + 32) as char } else { c }
}

pub open spec fn ascii_lower_seq(s: Seq<char>) -> Seq<char> {
    s.map_values(|c: char| ascii_lower(c))
}

pub fn ascii_lower_exec(c: char) -> (r: char)
    ensures
        r == ascii_lower(c),
{
    if 'A' <= c && c <= 'Z' {
        let code = ((c as u32) + 32) as u8;
        code as char
    } else {
        c
    }
}

/// Unicode `White_Space`, the property `char::is_whitespace` tests.
pub open spec fn is_white_space(c: char) -> bool {
    ||| '\u{9}' <= c <= '\u{d}'
    ||| c == ' '
    ||| c == '\u{85}'
    ||| c == '\u{a0}'
    ||| c == '\u{1680}'
    ||| '\u{2000}' <= c <= '\u{200a}'
    ||| c == '\u{2028}'
    ||| c == '\u{2029}'
    ||| c == '\u{202f}'
    ||| c == '\u{205f}'
    ||| c == '\u{3000}'
}

pub fn is_white_space_exec(c: char) -> (r: bool)
    ensures
        r == is_white_space(c),
{
    ('\u{9}' <= c && c <= '\u{d}') || c == ' ' || c == '\u{85}' || c == '\u{a0}' || c == '\u{1680}'
        || ('\u{2000}' <= c && c <= '\u{200a}') || c == '\u{2028}' || c == '\u{2029}'
        || c == '\u{202f}' || c == '\u{205f}' || c == '\u{3000}'
}

// ---------------------------------------------------------------------------------------------
// Searching

/// `needle` occurs in `hay` starting at `i`.
pub open spec fn occurs_at(hay: Seq<char>, needle: Seq<char>, i: int) -> bool {
    0 <= i && i + needle.len() <= hay.len() && hay.subrange(i, i + needle.len()) == needle
}

pub open spec fn contains_seq(hay: Seq<char>, needle: Seq<char>) -> bool {
    exists|i: int| occurs_at(hay, needle, i)
}

fn occurs_at_exec(hay: &Vec<char>, needle: &Vec<char>, i: usize) -> (r: bool)
    requires
        i + needle.len() <= hay.len(),
    ensures
        r == occurs_at(hay@, needle@, i as int),
{
    let m = needle.len();
    for j in 0..m
        invariant
            m == needle.len(),
            i + m <= hay.len(),
            forall|k: int| 0 <= k < j ==> hay@[i + k] == needle@[k],
    {
        if hay[i + j] != needle[j] {
            proof {
                assert(hay@.subrange(i as int, i + m)[j as int] != needle@[j as int]);
            }
            return false;
        }
    }
    proof {
        assert(hay@.subrange(i as int, i + m) =~= needle@);
    }
    true
}

/// Whether `needle` occurs in `hay` as a contiguous run.
pub fn contains_exec(hay: &Vec<char>, needle: &Vec<char>) -> (r: bool)
    ensures
        r == contains_seq(hay@, needle@),
{
    if needle.len() > hay.len() {
        proof {
            assert forall|i: int| !occurs_at(hay@, needle@, i) by {}
        }
        return false;
    }
    let last = hay.len() - needle.len();
    let mut i: usize = 0;
    loop
        invariant
            i <= last,
            last + needle.len() == hay.len(),
            forall|k: int| 0 <= k < i ==> !occurs_at(hay@, needle@, k),
        ensures
            forall|k: int| 0 <= k <= last ==> !occurs_at(hay@, needle@, k),
        decreases last - i,
    {
        if occurs_at_exec(hay, needle, i) {
            return true;
        }
        if i == last {
            break;
        }
        i = i + 1;
    }
    proof {
        assert forall|k: int| !occurs_at(hay@, needle@, k) by {
            if 0 <= k <= last {
            }
        }
    }
    false
}

/// ASCII-lowercased copy (`str::to_ascii_lowercase`).
pub fn ascii_lower_vec(v: &Vec<char>) -> (r: Vec<char>)
    ensures
        r@ == ascii_lower_seq(v@),
{
    let mut r: Vec<char> = Vec::new();
    let n = v.len();
    for i in 0..n
        invariant
            n == v.len(),
            r@ == ascii_lower_seq(v@.take(i as int)),
    {
        let c = ascii_lower_exec(v[i]);
        r.push(c);
        proof {
            assert(ascii_lower_seq(v@.take(i + 1)) =~= ascii_lower_seq(v@.take(i as int)).push(c));
        }
    }
    proof {
        assert(v@.take(n as int) =~= v@);
    }
    r
}

// ---------------------------------------------------------------------------------------------
// Numbers

pub open spec fn digit_char(d: nat) -> char {
    (d + 48) as char
}

/// Decimal notation of a natural number, without leading zeros.
pub open spec fn decimal(n: nat) -> Seq<char>
    decreases n,
{
    if n < 10 {
        seq![digit_char(n)]
    } else {
        decimal(n / 10).push(digit_char(n % 10))
    }
}

/// Appends the decimal notation of `n`.
pub fn push_decimal(s: &mut String, n: u64)
    ensures
        final(s)@ == old(s)@ + decimal(n as nat),
    decreases n,
{
    if n >= 10 {
        push_decimal(s, n / 10);
    }
    let d = (n % 10) as u8 + 48;
    let c = d as char;
    string_push(s, c);
    proof {
        if n >= 10 {
            assert(old(s)@ + decimal(n as nat) =~= old(s)@ + decimal((n / 10) as nat) + seq![digit_char((n % 10) as nat)]);
        } else {
            assert(old(s)@ + decimal(n as nat) =~= old(s)@.push(digit_char(n as nat)));
        }
    }
}

pub open spec fn is_digit(c: char) -> bool {
    '0' <= c <= '9'
}

/// Value of a run of decimal digits.
pub open spec fn digits_value(s: Seq<char>) -> nat
    decreases s.len(),
{
    if s.len() == 0 {
        0
    } else {
        10 * digits_value(s.drop_last()) + ((s.last() as nat) - 48) as nat
    }
}

/// The text after an optional leading `+`.
pub open spec fn unsigned_body(s: Seq<char>) -> Seq<char> {
    if s.len() > 0 && s[0] == '+' { s.drop_first() } else { s }
}

/// `str::parse::<usize>`: an optional `+`, then one or more ASCII digits, whose value fits.
pub open spec fn spec_parse_usize(s: Seq<char>) -> Option<usize> {
    let body = unsigned_body(s);
    if body.len() == 0 || exists|i: int| 0 <= i < body.len() && !is_digit(#[trigger] body[i]) {
        None
    } else if digits_value(body) > usize::MAX {
        None
    } else {
        Some(digits_value(body) as usize)
    }
}

proof fn lemma_digits_value_monotone(s: Seq<char>, i: int)
    requires
        0 <= i <= s.len(),
        forall|k: int| 0 <= k < s.len() ==> is_digit(#[trigger] s[k]),
    ensures
        digits_value(s.take(i)) <= digits_value(s),
    decreases s.len() - i,
{
    if i < s.len() {
        lemma_digits_value_monotone(s, i + 1);
        assert(s.take(i + 1).drop_last() =~= s.take(i));
    } else {
        assert(s.take(i) =~= s);
    }
}

/// Parses an unsigned index as `str::parse::<usize>` does.
pub fn parse_usize(v: &Vec<char>, start: usize, end: usize) -> (r: Option<usize>)
    requires
        start <= end <= v.len(),
    ensures
        r == spec_parse_usize(v@.subrange(start as int, end as int)),
{
    let ghost s = v@.subrange(start as int, end as int);
    let mut i = start;
    if i < end && v[i] == '+' {
        i = i + 1;
    }
    let ghost body = v@.subrange(i as int, end as int);
    proof {
        assert(s.len() > 0 ==> s[0] == v@[start as int]);
        if s.len() > 0 && s[0] == '+' {
            assert(body =~= s.drop_first());
        } else {
            assert(body =~= s);
        }
    }
    if i == end {
        return None;
    }
    let body_start = i;
    while i < end
        invariant
            body_start <= i <= end <= v.len(),
            body == v@.subrange(body_start as int, end as int),
            body == unsigned_body(s),
            s == v@.subrange(start as int, end as int),
            forall|k: int| body_start <= k < i ==> is_digit(#[trigger] v@[k]),
        decreases end - i,
    {
        let c = v[i];
        if !('0' <= c && c <= '9') {
            proof {
                assert(body[i - body_start] == c);
                assert(!is_digit(body[i - body_start]));
            }
            return None;
        }
        i = i + 1;
    }
    proof {
        assert forall|k: int| 0 <= k < body.len() implies is_digit(#[trigger] body[k]) by {
            assert(body[k] == v@[body_start + k]);
        }
    }
    let mut value: usize = 0;
    let mut j = body_start;
    while j < end
        invariant
            body_start <= j <= end <= v.len(),
            body == v@.subrange(body_start as int, end as int),
            body == unsigned_body(s),
            s == v@.subrange(start as int, end as int),
            forall|k: int| 0 <= k < body.len() ==> is_digit(#[trigger] body[k]),
            value == digits_value(body.take(j - body_start)),
        decreases end - j,
    {
        let c = v[j];
        assert(body[j - body_start] == c);
        let d = (c as u32 - 48) as usize;
        proof {
            assert(body.take(j + 1 - body_start).drop_last() =~= body.take(j - body_start));
            assert(body.take(j + 1 - body_start).last() == c);
        }
        if value > (usize::MAX - d) / 10 {
            proof {
                assert(digits_value(body.take(j + 1 - body_start)) == 10 * value + d);
                assert(10 * value + d > usize::MAX) by (nonlinear_arith)
                    requires value > (usize::MAX - d) / 10, d <= 9;
                lemma_digits_value_monotone(body, j + 1 - body_start);
            }
            return None;
        }
        value = value * 10 + d;
        j = j + 1;
    }
    proof {
        assert(body.take(end - body_start) =~= body);
    }
    Some(value)
}


// ---------------------------------------------------------------------------------------------
// Splitting and trimming

/// Number of leading characters that are not white space.
pub open spec fn word_len(s: Seq<char>) -> nat
    decreases s.len(),
{
    if s.len() == 0 || is_white_space(s[0]) { 0 } else { 1 + word_len(s.drop_first()) }
}

/// The words of `s`: its maximal runs of non-white-space characters, in order
/// (`str::split_whitespace`).
pub open spec fn words(s: Seq<char>) -> Seq<Seq<char>>
    decreases s.len(),
{
    if s.len() == 0 {
        Seq::empty()
    } else if is_white_space(s[0]) {
        words(s.drop_first())
    } else {
        let n = word_len(s);
        proof {
            lemma_word_len_bound(s);
        }
        if n == 0 {
            Seq::empty()
        } else {
            seq![s.take(n as int)] + words(s.skip(n as int))
        }
    }
}

pub proof fn lemma_word_len_bound(s: Seq<char>)
    ensures
        word_len(s) <= s.len(),
    decreases s.len(),
{
    if s.len() > 0 && !is_white_space(s[0]) {
        lemma_word_len_bound(s.drop_first());
    }
}

proof fn lemma_word_len(s: Seq<char>, j: int)
    requires
        0 <= j <= s.len(),
        forall|k: int| 0 <= k < j ==> !is_white_space(#[trigger] s[k]),
        j == s.len() || is_white_space(s[j]),
    ensures
        word_len(s) == j,
    decreases j,
{
    if j > 0 {
        let t = s.drop_first();
        assert forall|k: int| 0 <= k < j - 1 implies !is_white_space(#[trigger] t[k]) by {
            assert(t[k] == s[k + 1]);
        }
        if j - 1 < t.len() {
            assert(t[j - 1] == s[j]);
        }
        lemma_word_len(t, j - 1);
    }
}

/// The words of a line (`str::split_whitespace`).
pub fn split_words(v: &Vec<char>) -> (r: Vec<Vec<char>>)
    ensures
        r@.map_values(|w: Vec<char>| w@) == words(v@),
{
    let n = v.len();
    let mut r: Vec<Vec<char>> = Vec::new();
    let mut i: usize = 0;
    proof {
        assert(v@.skip(0) =~= v@);
        assert(r@.map_values(|w: Vec<char>| w@) =~= Seq::<Seq<char>>::empty());
        assert(Seq::<Seq<char>>::empty() + words(v@) =~= words(v@));
    }
    while i < n
        invariant
            n == v.len(),
            i <= n,
            r@.map_values(|w: Vec<char>| w@) + words(v@.skip(i as int)) == words(v@),
        decreases n - i,
    {
        let ghost rest = v@.skip(i as int);
        if is_white_space_exec(v[i]) {
            proof {
                assert(rest[0] == v@[i as int]);
                assert(rest.drop_first() =~= v@.skip(i + 1));
            }
            i = i + 1;
        } else {
            let mut j = i;
            let mut w: Vec<char> = Vec::new();
            while j < n && !is_white_space_exec(v[j])
                invariant
                    i <= j <= n,
                    n == v.len(),
                    w@ == v@.subrange(i as int, j as int),
                    forall|k: int| i <= k < j ==> !is_white_space(#[trigger] v@[k]),
                decreases n - j,
            {
                w.push(v[j]);
                proof {
                    assert(v@.subrange(i as int, j + 1) =~= v@.subrange(i as int, j as int).push(v@[j as int]));
                }
                j = j + 1;
            }
            proof {
                assert forall|k: int| 0 <= k < j - i implies !is_white_space(#[trigger] rest[k]) by {
                    assert(rest[k] == v@[i + k]);
                }
                if j < n {
                    assert(rest[j - i] == v@[j as int]);
                }
                lemma_word_len(rest, j - i);
                assert(rest[0] == v@[i as int]);
                assert(rest.take(j - i) =~= w@);
                assert(rest.skip(j - i) =~= v@.skip(j as int));
                let old_r = r@.map_values(|w: Vec<char>| w@);
                assert(r@.push(w).map_values(|w: Vec<char>| w@) =~= old_r.push(w@));
                assert(old_r.push(w@) + words(v@.skip(j as int)) =~= old_r + (seq![w@] + words(v@.skip(j as int))));
            }
            r.push(w);
            i = j;
        }
    }
    proof {
        assert(v@.skip(n as int) =~= Seq::<char>::empty());
        assert(r@.map_values(|w: Vec<char>| w@) + words(v@.skip(n as int)) =~= r@.map_values(|w: Vec<char>| w@));
    }
    r
}

/// Index of the first space (' ') in `s`, if any.
pub open spec fn first_space(s: Seq<char>) -> Option<int>
    decreases s.len(),
{
    if s.len() == 0 {
        None
    } else if s[0] == ' ' {
        Some(0)
    } else {
        match first_space(s.drop_first()) {
            Some(i) => Some(i + 1),
            None => None,
        }
    }
}

proof fn lemma_first_space(s: Seq<char>, j: int)
    requires
        0 <= j <= s.len(),
        forall|k: int| 0 <= k < j ==> #[trigger] s[k] != ' ',
        j == s.len() || s[j] == ' ',
    ensures
        first_space(s) == if j == s.len() { None::<int> } else { Some(j) },
    decreases j,
{
    if j > 0 {
        let t = s.drop_first();
        assert forall|k: int| 0 <= k < j - 1 implies #[trigger] t[k] != ' ' by {
            assert(t[k] == s[k + 1]);
        }
        if j - 1 < t.len() {
            assert(t[j - 1] == s[j]);
        }
        lemma_first_space(t, j - 1);
    }
}

/// Index of the first space at or after `from`, relative to the whole vector.
pub fn find_space(v: &Vec<char>, from: usize) -> (r: Option<usize>)
    requires
        from <= v.len(),
    ensures
        match first_space(v@.skip(from as int)) {
            Some(i) => 0 <= i && from + i < v.len() && r == Some((from + i) as usize),
            None => r is None,
        },
        r matches Some(j) ==> from <= j < v.len(),
{
    let ghost s = v@.skip(from as int);
    let mut j = from;
    while j < v.len() && v[j] != ' '
        invariant
            from <= j <= v.len(),
            s == v@.skip(from as int),
            forall|k: int| from <= k < j ==> #[trigger] v@[k] != ' ',
        decreases v.len() - j,
    {
        j = j + 1;
    }
    proof {
        assert forall|k: int| 0 <= k < j - from implies #[trigger] s[k] != ' ' by {
            assert(s[k] == v@[from + k]);
        }
        if j < v.len() {
            assert(s[j - from] == v@[j as int]);
        }
        lemma_first_space(s, j - from);
    }
    if j < v.len() { Some(j) } else { None }
}


/// Whether two character vectors hold the same characters.
pub fn vec_eq(a: &Vec<char>, b: &Vec<char>) -> (r: bool)
    ensures
        r == (a@ == b@),
{
    if a.len() != b.len() {
        return false;
    }
    let n = a.len();
    for i in 0..n
        invariant
            n == a.len(),
            n == b.len(),
            forall|k: int| 0 <= k < i ==> a@[k] == b@[k],
    {
        if a[i] != b[i] {
            return false;
        }
    }
    proof {
        assert(a@ =~= b@);
    }
    true
}

/// Whether a character vector spells the given text.
pub fn vec_eq_str(a: &Vec<char>, lit: &str) -> (r: bool)
    ensures
        r == (a@ == lit@),
{
    let b = chars_of(lit);
    vec_eq(a, &b)
}

// ---------------------------------------------------------------------------------------------
// Trimming

/// Number of whitespace characters at the start of `s`.
pub open spec fn leading_white_space(s: Seq<char>) -> nat
    decreases s.len(),
{
    if s.len() > 0 && is_white_space(s[0]) { 1 + leading_white_space(s.drop_first()) } else { 0 }
}

/// Number of whitespace characters at the end of `s`.
pub open spec fn trailing_white_space(s: Seq<char>) -> nat
    decreases s.len(),
{
    if s.len() > 0 && is_white_space(s.last()) { 1 + trailing_white_space(s.drop_last()) } else { 0 }
}

/// `str::trim`: the text without its leading and trailing whitespace.
pub open spec fn spec_trim(s: Seq<char>) -> Seq<char> {
    let rest = s.skip(leading_white_space(s) as int);
    rest.take(rest.len() - trailing_white_space(rest))
}

proof fn lemma_leading_white_space(s: Seq<char>, i: int)
    requires
        0 <= i <= s.len(),
        forall|k: int| 0 <= k < i ==> is_white_space(#[trigger] s[k]),
    ensures
        leading_white_space(s) == i + leading_white_space(s.skip(i)),
        leading_white_space(s) <= s.len(),
    decreases i,
{
    if i > 0 {
        let t = s.drop_first();
        assert forall|k: int| 0 <= k < i - 1 implies is_white_space(#[trigger] t[k]) by {
            assert(t[k] == s[k + 1]);
        }
        lemma_leading_white_space(t, i - 1);
        assert(t.skip(i - 1) =~= s.skip(i));
    } else {
        assert(s.skip(0) =~= s);
        lemma_leading_white_space_bound(s);
    }
}

proof fn lemma_leading_white_space_bound(s: Seq<char>)
    ensures
        leading_white_space(s) <= s.len(),
    decreases s.len(),
{
    if s.len() > 0 {
        lemma_leading_white_space_bound(s.drop_first());
    }
}

proof fn lemma_trailing_white_space(s: Seq<char>, j: int)
    requires
        0 <= j <= s.len(),
        forall|k: int| j <= k < s.len() ==> is_white_space(#[trigger] s[k]),
    ensures
        trailing_white_space(s) == (s.len() - j) + trailing_white_space(s.take(j)),
    decreases s.len() - j,
{
    if j < s.len() {
        let t = s.drop_last();
        assert forall|k: int| j <= k < t.len() implies is_white_space(#[trigger] t[k]) by {
            assert(t[k] == s[k]);
        }
        lemma_trailing_white_space(t, j);
        assert(t.take(j) =~= s.take(j));
        assert(is_white_space(s.last()));
    } else {
        assert(s.take(j) =~= s);
    }
}

/// The text without leading and trailing whitespace, as `str::trim`.
pub fn trim_text(s: &str) -> (r: String)
    ensures
        r@ == spec_trim(s@),
{
    let v = chars_of(s);
    let n = v.len();
    let mut i: usize = 0;
    while i < n && is_white_space_exec(v[i])
        invariant
            n == v.len(),
            i <= n,
            forall|k: int| 0 <= k < i ==> is_white_space(#[trigger] v@[k]),
        decreases n - i,
    {
        i = i + 1;
    }
    proof {
        lemma_leading_white_space(v@, i as int);
        if i < n {
            assert(v@.skip(i as int)[0] == v@[i as int]);
        }
        assert(leading_white_space(v@.skip(i as int)) == 0);
    }
    let ghost rest = v@.skip(i as int);
    let mut j: usize = n;
    while j > i && is_white_space_exec(v[j - 1])
        invariant
            n == v.len(),
            i <= j <= n,
            rest == v@.skip(i as int),
            forall|k: int| j <= k < n ==> is_white_space(#[trigger] v@[k]),
        decreases j,
    {
        j = j - 1;
    }
    proof {
        assert forall|k: int| j - i <= k < rest.len() implies is_white_space(#[trigger] rest[k]) by {
            assert(rest[k] == v@[k + i]);
        }
        lemma_trailing_white_space(rest, j - i);
        let kept = rest.take(j - i);
        if j > i {
            assert(kept.last() == v@[j - 1]);
        }
        assert(trailing_white_space(kept) == 0);
        assert(v@.subrange(i as int, j as int) =~= kept);
    }
    string_from_range(&v, i, j)
}

} // verus!
