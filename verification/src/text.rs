//! Character-level text utilities: whitespace splitting, searching, trimming,
//! numeric parsing and joining, each proved against a mathematical account of
//! what it yields.

use vstd::prelude::*;
use vstd::string::*;

verus! {

broadcast use vstd::seq::group_seq_axioms, vstd::seq_lib::group_seq_lib_default,
    vstd::string::group_string_axioms;

/// The ASCII whitespace characters.
pub open spec fn is_space(c: char) -> bool {
    c == ' ' || c == '\t' || c == '\n' || c == '\r' || c == '\u{0c}'
}

fn is_space_char(c: char) -> (r: bool)
    ensures
        r == is_space(c),
{
    c == ' ' || c == '\t' || c == '\n' || c == '\r' || c == '\u{0c}'
}

/// The length of the leading run of non-whitespace characters.
pub open spec fn token_len(s: Seq<char>) -> nat
    decreases s.len(),
{
    if s.len() == 0 || is_space(s[0]) {
        0
    } else {
        1 + token_len(s.skip(1))
    }
}

proof fn lemma_token_len_le(s: Seq<char>)
    ensures
        token_len(s) <= s.len(),
    decreases s.len(),
{
    if s.len() > 0 && !is_space(s[0]) {
        lemma_token_len_le(s.skip(1));
    }
}

proof fn lemma_token_len_eq(t: Seq<char>, m: int)
    requires
        0 <= m <= t.len(),
        forall|k: int| 0 <= k < m ==> !is_space(t[k]),
        m == t.len() || is_space(t[m]),
    ensures
        token_len(t) == m,
    decreases m,
{
    if m == 0 {
    } else {
        assert(!is_space(t[0]));
        lemma_token_len_eq(t.skip(1), m - 1);
    }
}

/// The whitespace-separated fields of a character sequence, in order.
pub open spec fn split_ws(s: Seq<char>) -> Seq<Seq<char>>
    decreases s.len(),
    via split_ws_decreases
{
    if s.len() == 0 {
        Seq::empty()
    } else if is_space(s[0]) {
        split_ws(s.skip(1))
    } else {
        seq![s.take(token_len(s) as int)] + split_ws(s.skip(token_len(s) as int))
    }
}

#[via_fn]
proof fn split_ws_decreases(s: Seq<char>) {
    lemma_token_len_le(s);
}

proof fn lemma_split_ws_skip_spaces(s: Seq<char>, a: int, b: int)
    requires
        0 <= a <= b <= s.len(),
        forall|k: int| a <= k < b ==> is_space(s[k]),
    ensures
        split_ws(s.skip(a)) == split_ws(s.skip(b)),
    decreases b - a,
{
    if a < b {
        assert(is_space(s.skip(a)[0]));
        assert(s.skip(a).skip(1) =~= s.skip(a + 1));
        lemma_split_ws_skip_spaces(s, a + 1, b);
    }
}

proof fn lemma_split_ws_token(s: Seq<char>, a: int, b: int)
    requires
        0 <= a < b <= s.len(),
        forall|k: int| a <= k < b ==> !is_space(s[k]),
        b == s.len() || is_space(s[b]),
    ensures
        split_ws(s.skip(a)) == seq![s.subrange(a, b)] + split_ws(s.skip(b)),
{
    let t = s.skip(a);
    lemma_token_len_eq(t, b - a);
    assert(!is_space(t[0]));
    assert(t.take(b - a) =~= s.subrange(a, b));
    assert(t.skip(b - a) =~= s.skip(b));
}

fn skip_spaces(s: &str, from: usize) -> (r: usize)
    requires
        from <= s@.len(),
    ensures
        from <= r <= s@.len(),
        forall|k: int| from <= k < r ==> is_space(s@[k]),
        r == s@.len() || !is_space(s@[r as int]),
{
    let n = s.unicode_len();
    let mut i = from;
    while i < n
        invariant
            from <= i <= n,
            n == s@.len(),
            forall|k: int| from <= k < i ==> is_space(s@[k]),
        decreases n - i,
    {
        if !is_space_char(s.get_char(i)) {
            return i;
        }
        i += 1;
    }
    i
}

fn token_end(s: &str, from: usize) -> (r: usize)
    requires
        from <= s@.len(),
    ensures
        from <= r <= s@.len(),
        forall|k: int| from <= k < r ==> !is_space(s@[k]),
        r == s@.len() || is_space(s@[r as int]),
{
    let n = s.unicode_len();
    let mut i = from;
    while i < n
        invariant
            from <= i <= n,
            n == s@.len(),
            forall|k: int| from <= k < i ==> !is_space(s@[k]),
        decreases n - i,
    {
        if is_space_char(s.get_char(i)) {
            return i;
        }
        i += 1;
    }
    i
}

/// Splits a line into its whitespace-separated fields.
pub fn split_fields(s: &str) -> (r: Vec<String>)
    ensures
        r.deep_view() == split_ws(s@),
{
    let n = s.unicode_len();
    let mut fields: Vec<String> = Vec::new();
    let mut i = skip_spaces(s, 0);
    proof {
        assert(s@.skip(0) =~= s@);
        lemma_split_ws_skip_spaces(s@, 0, i as int);
        assert(fields.deep_view() =~= Seq::<Seq<char>>::empty());
    }
    while i < n
        invariant
            i <= n,
            n == s@.len(),
            fields.deep_view() + split_ws(s@.skip(i as int)) == split_ws(s@),
            i == n || !is_space(s@[i as int]),
        decreases n - i,
    {
        let j = token_end(s, i);
        assert(j > i);
        let token = s.substring_char(i, j).to_owned();
        proof {
            lemma_split_ws_token(s@, i as int, j as int);
            assert(token@ == s@.subrange(i as int, j as int));
            assert(fields@.push(token).map_values(|t: String| t@) =~= fields.deep_view().push(
                token@,
            ));
        }
        fields.push(token);
        proof {
            assert(fields.deep_view() =~= fields@.map_values(|t: String| t@));
        }
        let k = skip_spaces(s, j);
        proof {
            lemma_split_ws_skip_spaces(s@, j as int, k as int);
            assert(fields.deep_view() + split_ws(s@.skip(k as int)) =~= split_ws(s@));
        }
        i = k;
    }
    proof {
        assert(s@.skip(n as int) =~= Seq::<char>::empty());
        assert(split_ws(s@.skip(i as int)) =~= Seq::<Seq<char>>::empty());
        assert(fields.deep_view() =~= split_ws(s@));
    }
    fields
}

/// Whether `s` begins with `prefix`.
pub open spec fn starts_with_spec(s: Seq<char>, prefix: Seq<char>) -> bool {
    s.len() >= prefix.len() && s.take(prefix.len() as int) == prefix
}

/// Whether the string begins with the given prefix.
pub fn str_starts_with(s: &str, prefix: &str) -> (r: bool)
    ensures
        r == starts_with_spec(s@, prefix@),
{
    let n = s.unicode_len();
    let m = prefix.unicode_len();
    if n < m {
        return false;
    }
    let mut i: usize = 0;
    while i < m
        invariant
            i <= m <= n,
            n == s@.len(),
            m == prefix@.len(),
            forall|k: int| 0 <= k < i ==> s@[k] == prefix@[k],
        decreases m - i,
    {
        if s.get_char(i) != prefix.get_char(i) {
            assert(s@.take(m as int)[i as int] != prefix@[i as int]);
            return false;
        }
        i += 1;
    }
    proof {
        assert(s@.take(m as int) =~= prefix@);
    }
    true
}

/// Whether a character is a decimal digit.
pub open spec fn is_digit(c: char) -> bool {
    48 <= c as u32 <= 57
}

/// The numeric value of one digit character.
pub open spec fn digit_val(c: char) -> nat {
    (c as u32 - 48) as nat
}

/// Whether every character of the sequence is a decimal digit.
pub open spec fn all_digits(s: Seq<char>) -> bool {
    forall|i: int| 0 <= i < s.len() ==> is_digit(s[i])
}

/// The value of a digit sequence read in base ten.
pub open spec fn digits_val(s: Seq<char>) -> nat
    decreases s.len(),
{
    if s.len() == 0 {
        0
    } else {
        digits_val(s.drop_last()) * 10 + digit_val(s.last())
    }
}

proof fn lemma_digits_val_prefix(s: Seq<char>, i: int)
    requires
        0 <= i <= s.len(),
    ensures
        digits_val(s.take(i)) <= digits_val(s),
    decreases s.len(),
{
    if i == s.len() {
        assert(s.take(i) =~= s);
    } else {
        assert(s.drop_last().take(i) =~= s.take(i));
        lemma_digits_val_prefix(s.drop_last(), i);
        assert(digits_val(s) >= digits_val(s.drop_last()));
    }
}

/// What the standard parser yields for an unsigned sixteen-bit reading: an
/// optional leading plus sign, then at least one digit, with the value in
/// range; anything else is rejected.
pub open spec fn parse_u16_spec(s: Seq<char>) -> Option<u16> {
    let body = if s.len() > 0 && s[0] == '+' {
        s.skip(1)
    } else {
        s
    };
    if body.len() > 0 && all_digits(body) && digits_val(body) <= u16::MAX {
        Some(digits_val(body) as u16)
    } else {
        None
    }
}

/// What the standard parser yields for a signed thirty-two-bit reading.
pub open spec fn parse_i32_spec(s: Seq<char>) -> Option<i32> {
    if s.len() > 0 && s[0] == '-' {
        let body = s.skip(1);
        if body.len() > 0 && all_digits(body) && digits_val(body) <= 0x8000_0000 {
            Some((0 - digits_val(body)) as i32)
        } else {
            None
        }
    } else {
        let body = if s.len() > 0 && s[0] == '+' {
            s.skip(1)
        } else {
            s
        };
        if body.len() > 0 && all_digits(body) && digits_val(body) <= i32::MAX {
            Some(digits_val(body) as i32)
        } else {
            None
        }
    }
}

fn parse_digits(s: &str, from: usize, bound: u64) -> (r: Option<u64>)
    requires
        from <= s@.len(),
        bound <= 0x8000_0000,
    ensures
        match r {
            Some(v) => {
                &&& s@.len() > from
                &&& all_digits(s@.skip(from as int))
                &&& digits_val(s@.skip(from as int)) == v
                &&& v <= bound
            },
            None => {
                let body = s@.skip(from as int);
                body.len() == 0 || !all_digits(body) || digits_val(body) > bound
            },
        },
{
    let n = s.unicode_len();
    if from >= n {
        return None;
    }
    let ghost body = s@.skip(from as int);
    let mut acc: u64 = 0;
    let mut j = from;
    while j < n
        invariant
            from <= j <= n,
            n == s@.len(),
            body == s@.skip(from as int),
            all_digits(body.take(j - from)),
            acc == digits_val(body.take(j - from)),
            acc <= bound,
            bound <= 0x8000_0000,
        decreases n - j,
    {
        let c = s.get_char(j);
        let cv = c as u32;
        proof {
            assert(body[j - from] == s@[j as int]);
        }
        if cv < 48 || cv > 57 {
            assert(!is_digit(body[j - from]));
            return None;
        }
        let d = (cv - 48) as u64;
        proof {
            assert(body.take(j - from + 1).drop_last() =~= body.take(j - from));
            assert(body.take(j - from + 1).last() == body[j - from]);
            assert(digits_val(body.take(j - from + 1)) == acc * 10 + d);
        }
        if acc > bound / 10 {
            proof {
                assert(acc * 10 > bound) by (nonlinear_arith)
                    requires
                        acc > bound / 10,
                        bound >= 0,
                ;
                lemma_digits_val_prefix(body, j - from + 1);
                assert(digits_val(body) > bound);
            }
            return None;
        }
        proof {
            assert(acc * 10 <= (bound / 10) * 10 <= bound) by (nonlinear_arith)
                requires
                    acc <= bound / 10,
                    bound >= 0,
            ;
        }
        let next = acc * 10 + d;
        if next > bound {
            proof {
                lemma_digits_val_prefix(body, j - from + 1);
                assert(digits_val(body) > bound);
            }
            return None;
        }
        acc = next;
        j += 1;
    }
    proof {
        assert(body.take(n - from) =~= body);
    }
    Some(acc)
}

/// Parses an unsigned sixteen-bit number as the standard parser would.
pub fn parse_u16(s: &str) -> (r: Option<u16>)
    ensures
        r == parse_u16_spec(s@),
{
    let n = s.unicode_len();
    let from: usize = if n > 0 && s.get_char(0) == '+' {
        1
    } else {
        0
    };
    proof {
        if from == 1 {
            assert(s@.skip(1) == s@.skip(from as int));
        } else {
            assert(s@.skip(0) =~= s@);
        }
    }
    match parse_digits(s, from, 65535) {
        Some(v) => Some(v as u16),
        None => None,
    }
}

/// Parses a signed thirty-two-bit number as the standard parser would.
pub fn parse_i32(s: &str) -> (r: Option<i32>)
    ensures
        r == parse_i32_spec(s@),
{
    let n = s.unicode_len();
    if n > 0 && s.get_char(0) == '-' {
        match parse_digits(s, 1, 0x8000_0000) {
            Some(v) => Some((-(v as i64)) as i32),
            None => None,
        }
    } else {
        let from: usize = if n > 0 && s.get_char(0) == '+' {
            1
        } else {
            0
        };
        proof {
            if from == 0 {
                assert(s@.skip(0) =~= s@);
            }
        }
        match parse_digits(s, from, 0x7fff_ffff) {
            Some(v) => Some(v as i32),
            None => None,
        }
    }
}

/// The position of the first occurrence of the two-character pattern.
pub open spec fn find_pair_spec(s: Seq<char>, c0: char, c1: char) -> Option<int>
    decreases s.len(),
{
    if s.len() < 2 {
        None
    } else if s[0] == c0 && s[1] == c1 {
        Some(0)
    } else {
        match find_pair_spec(s.skip(1), c0, c1) {
            None => None,
            Some(i) => Some(i + 1),
        }
    }
}

/// Finds the first occurrence of the two-character pattern.
pub fn find_pair(s: &str, c0: char, c1: char) -> (r: Option<usize>)
    ensures
        match r {
            Some(i) => find_pair_spec(s@, c0, c1) == Some(i as int) && i + 2 <= s@.len(),
            None => find_pair_spec(s@, c0, c1) is None,
        },
{
    let n = s.unicode_len();
    if n < 2 {
        return None;
    }
    let mut i: usize = 0;
    proof {
        assert(s@.skip(0) =~= s@);
    }
    while i < n - 1
        invariant
            i <= n - 1,
            n >= 2,
            n == s@.len(),
            find_pair_spec(s@, c0, c1) == match find_pair_spec(s@.skip(i as int), c0, c1) {
                None => None::<int>,
                Some(k) => Some(k + i),
            },
        decreases n - i,
    {
        proof {
            assert(s@.skip(i as int)[0] == s@[i as int]);
            assert(s@.skip(i as int)[1] == s@[i + 1]);
            assert(s@.skip(i as int).skip(1) =~= s@.skip(i + 1));
        }
        if s.get_char(i) == c0 && s.get_char(i + 1) == c1 {
            return Some(i);
        }
        i += 1;
    }
    proof {
        assert(s@.skip(i as int).len() < 2);
    }
    None
}

/// The position of the last colon.
pub open spec fn last_colon_spec(s: Seq<char>) -> Option<int>
    decreases s.len(),
{
    if s.len() == 0 {
        None
    } else if s.last() == ':' {
        Some(s.len() - 1)
    } else {
        last_colon_spec(s.drop_last())
    }
}

/// Finds the last colon of the string.
pub fn last_colon(s: &str) -> (r: Option<usize>)
    ensures
        match r {
            Some(i) => last_colon_spec(s@) == Some(i as int) && i < s@.len(),
            None => last_colon_spec(s@) is None,
        },
{
    let n = s.unicode_len();
    let mut i = n;
    proof {
        assert(s@.take(n as int) =~= s@);
    }
    while i > 0
        invariant
            i <= n,
            n == s@.len(),
            last_colon_spec(s@) == last_colon_spec(s@.take(i as int)),
        decreases i,
    {
        proof {
            assert(s@.take(i as int).last() == s@[i - 1]);
            assert(s@.take(i as int).drop_last() =~= s@.take(i - 1));
        }
        if s.get_char(i - 1) == ':' {
            return Some(i - 1);
        }
        i -= 1;
    }
    proof {
        assert(s@.take(0) =~= Seq::<char>::empty());
    }
    None
}

/// A class of characters a trim may strip.
#[derive(Clone, Copy, PartialEq, Eq, Structural)]
pub enum CharClass {
    /// ASCII whitespace.
    Space,
    /// The colon.
    Colon,
    /// Square brackets.
    Bracket,
    /// The opening parenthesis.
    LParen,
    /// The closing parenthesis.
    RParen,
}

/// Whether a character belongs to the class.
pub open spec fn in_class(k: CharClass, c: char) -> bool {
    match k {
        CharClass::Space => is_space(c),
        CharClass::Colon => c == ':',
        CharClass::Bracket => c == '[' || c == ']',
        CharClass::LParen => c == '(',
        CharClass::RParen => c == ')',
    }
}

fn in_class_exec(k: CharClass, c: char) -> (r: bool)
    ensures
        r == in_class(k, c),
{
    match k {
        CharClass::Space => is_space_char(c),
        CharClass::Colon => c == ':',
        CharClass::Bracket => c == '[' || c == ']',
        CharClass::LParen => c == '(',
        CharClass::RParen => c == ')',
    }
}

/// The sequence with every leading and trailing character of the class
/// removed.
pub open spec fn trim_class_spec(k: CharClass, s: Seq<char>) -> Seq<char>
    decreases s.len(),
{
    if s.len() == 0 {
        s
    } else if in_class(k, s[0]) {
        trim_class_spec(k, s.skip(1))
    } else if in_class(k, s.last()) {
        trim_class_spec(k, s.drop_last())
    } else {
        s
    }
}

/// The sequence with every leading character of the class removed.
pub open spec fn trim_start_class_spec(k: CharClass, s: Seq<char>) -> Seq<char>
    decreases s.len(),
{
    if s.len() > 0 && in_class(k, s[0]) {
        trim_start_class_spec(k, s.skip(1))
    } else {
        s
    }
}

/// The sequence with every trailing character of the class removed.
pub open spec fn trim_end_class_spec(k: CharClass, s: Seq<char>) -> Seq<char>
    decreases s.len(),
{
    if s.len() > 0 && in_class(k, s.last()) {
        trim_end_class_spec(k, s.drop_last())
    } else {
        s
    }
}

fn class_run_start(s: &str, k: CharClass) -> (r: usize)
    ensures
        r <= s@.len(),
        forall|j: int| 0 <= j < r ==> in_class(k, s@[j]),
        r == s@.len() || !in_class(k, s@[r as int]),
{
    let n = s.unicode_len();
    let mut i: usize = 0;
    while i < n
        invariant
            i <= n,
            n == s@.len(),
            forall|j: int| 0 <= j < i ==> in_class(k, s@[j]),
        decreases n - i,
    {
        if !in_class_exec(k, s.get_char(i)) {
            return i;
        }
        i += 1;
    }
    i
}

fn class_run_end(s: &str, k: CharClass, low: usize) -> (r: usize)
    requires
        low <= s@.len(),
    ensures
        low <= r <= s@.len(),
        forall|j: int| r <= j < s@.len() ==> in_class(k, s@[j]),
        r == low || !in_class(k, s@[r - 1]),
{
    let n = s.unicode_len();
    let mut i = n;
    while i > low
        invariant
            low <= i <= n,
            n == s@.len(),
            forall|j: int| i <= j < n ==> in_class(k, s@[j]),
        decreases i,
    {
        if !in_class_exec(k, s.get_char(i - 1)) {
            return i;
        }
        i -= 1;
    }
    i
}

proof fn lemma_trim_class_start(k: CharClass, s: Seq<char>, a: int)
    requires
        0 <= a <= s.len(),
        forall|j: int| 0 <= j < a ==> in_class(k, s[j]),
    ensures
        trim_class_spec(k, s) == trim_class_spec(k, s.skip(a)),
    decreases a,
{
    if a > 0 {
        assert(in_class(k, s[0]));
        assert(s.skip(1).skip(a - 1) =~= s.skip(a));
        assert forall|j: int| 0 <= j < a - 1 implies in_class(k, s.skip(1)[j]) by {
            assert(s.skip(1)[j] == s[j + 1]);
        }
        lemma_trim_class_start(k, s.skip(1), a - 1);
    } else {
        assert(s.skip(0) =~= s);
    }
}

proof fn lemma_trim_class_end(k: CharClass, s: Seq<char>, b: int)
    requires
        0 <= b <= s.len(),
        forall|j: int| b <= j < s.len() ==> in_class(k, s[j]),
        s.len() == 0 || !in_class(k, s[0]),
    ensures
        trim_class_spec(k, s) == trim_class_spec(k, s.take(b)),
    decreases s.len() - b,
{
    if b < s.len() {
        assert(in_class(k, s.last()));
        assert(s.drop_last() =~= s.take(s.len() - 1));
        let t = s.take(s.len() - 1);
        assert forall|j: int| b <= j < t.len() implies in_class(k, t[j]) by {
            assert(t[j] == s[j]);
        }
        assert(t.len() == 0 || !in_class(k, t[0]));
        lemma_trim_class_end(k, t, b);
        assert(t.take(b) =~= s.take(b));
    } else {
        assert(s.take(b) =~= s);
    }
}

/// Strips every leading and trailing character of the class.
pub fn trim_class(s: &str, k: CharClass) -> (r: &str)
    ensures
        r@ == trim_class_spec(k, s@),
{
    let a = class_run_start(s, k);
    let rest = s.substring_char(a, s.unicode_len());
    proof {
        lemma_trim_class_start(k, s@, a as int);
        assert(rest@ =~= s@.skip(a as int));
    }
    let b = class_run_end(rest, k, 0);
    let out = rest.substring_char(0, b);
    proof {
        lemma_trim_class_end(k, rest@, b as int);
        assert(out@ =~= rest@.take(b as int));
        if rest@.len() > 0 {
            if b == rest@.len() {
            } else {
                if in_class(k, rest@[0]) {
                    assert(a < s@.len() && !in_class(k, s@[a as int]));
                }
            }
        }
        assert(trim_class_spec(k, out@) =~= out@) by {
            if out@.len() > 0 {
                assert(!in_class(k, out@[0]));
                assert(!in_class(k, out@.last()));
            }
        }
        assert(trim_class_spec(k, rest@.take(b as int)) =~= rest@.take(b as int)) by {
            assert(trim_class_spec(k, out@) =~= out@);
        }
    }
    out
}

/// Strips every leading character of the class.
pub fn trim_start_class(s: &str, k: CharClass) -> (r: &str)
    ensures
        r@ == trim_start_class_spec(k, s@),
{
    let a = class_run_start(s, k);
    let out = s.substring_char(a, s.unicode_len());
    proof {
        lemma_trim_start_run(k, s@, a as int);
        assert(out@ =~= s@.skip(a as int));
    }
    out
}

proof fn lemma_trim_start_run(k: CharClass, s: Seq<char>, a: int)
    requires
        0 <= a <= s.len(),
        forall|j: int| 0 <= j < a ==> in_class(k, s[j]),
        a == s.len() || !in_class(k, s[a]),
    ensures
        trim_start_class_spec(k, s) == s.skip(a),
    decreases a,
{
    if a > 0 {
        assert(in_class(k, s[0]));
        assert(s.skip(1).skip(a - 1) =~= s.skip(a));
        lemma_trim_start_run(k, s.skip(1), a - 1);
    } else {
        assert(s.skip(0) =~= s);
    }
}

/// Strips every trailing character of the class.
pub fn trim_end_class(s: &str, k: CharClass) -> (r: &str)
    ensures
        r@ == trim_end_class_spec(k, s@),
{
    let b = class_run_end(s, k, 0);
    let out = s.substring_char(0, b);
    proof {
        lemma_trim_end_run(k, s@, b as int);
        assert(out@ =~= s@.take(b as int));
    }
    out
}

proof fn lemma_trim_end_run(k: CharClass, s: Seq<char>, b: int)
    requires
        0 <= b <= s.len(),
        forall|j: int| b <= j < s.len() ==> in_class(k, s[j]),
        b == 0 || !in_class(k, s[b - 1]),
    ensures
        trim_end_class_spec(k, s) == s.take(b),
    decreases s.len() - b,
{
    if b < s.len() {
        assert(in_class(k, s.last()));
        assert(s.drop_last() =~= s.take(s.len() - 1));
        lemma_trim_end_run(k, s.take(s.len() - 1), b);
        assert(s.take(s.len() - 1).take(b) =~= s.take(b));
    } else {
        assert(s.take(b) =~= s);
    }
}

/// The fields joined with single spaces.
pub open spec fn join_sp(fields: Seq<Seq<char>>) -> Seq<char>
    decreases fields.len(),
{
    if fields.len() == 0 {
        Seq::empty()
    } else if fields.len() == 1 {
        fields[0]
    } else {
        join_sp(fields.drop_last()) + seq![' '] + fields.last()
    }
}

/// Joins the fields from position `from` on with single spaces.
pub fn join_from(fields: &Vec<String>, from: usize) -> (r: String)
    requires
        from <= fields@.len(),
    ensures
        r@ == join_sp(fields.deep_view().skip(from as int)),
{
    let ghost tail = fields.deep_view().skip(from as int);
    let mut out = String::new();
    let mut i = from;
    proof {
        assert(tail.take(0) =~= Seq::<Seq<char>>::empty());
        assert(out@ =~= join_sp(tail.take(0)));
    }
    while i < fields.len()
        invariant
            from <= i <= fields@.len(),
            tail == fields.deep_view().skip(from as int),
            out@ == join_sp(tail.take(i - from)),
        decreases fields@.len() - i,
    {
        proof {
            assert(tail.take(i - from + 1).drop_last() =~= tail.take(i - from));
            assert(tail.take(i - from + 1).last() == fields@[i as int]@);
        }
        if i > from {
            out.append(" ");
            proof {
                reveal_strlit(" ");
                assert(" "@ =~= seq![' ']);
            }
        }
        out.append(fields[i].as_str());
        proof {
            if i == from {
                assert(join_sp(tail.take(1)) == tail[0]);
                assert(out@ =~= join_sp(tail.take(i - from + 1)));
            } else {
                assert(out@ =~= join_sp(tail.take(i - from + 1)));
            }
        }
        i += 1;
    }
    proof {
        assert(tail.take(fields@.len() - from) =~= tail);
    }
    out
}

/// The position of the first occurrence of the character.
pub open spec fn find_char_spec(s: Seq<char>, c: char) -> Option<int>
    decreases s.len(),
{
    if s.len() == 0 {
        None
    } else if s[0] == c {
        Some(0)
    } else {
        match find_char_spec(s.skip(1), c) {
            None => None,
            Some(i) => Some(i + 1),
        }
    }
}

/// Finds the first occurrence of the character.
pub fn find_char(s: &str, c: char) -> (r: Option<usize>)
    ensures
        match r {
            Some(i) => find_char_spec(s@, c) == Some(i as int) && i < s@.len(),
            None => find_char_spec(s@, c) is None,
        },
{
    let n = s.unicode_len();
    let mut i: usize = 0;
    proof {
        assert(s@.skip(0) =~= s@);
    }
    while i < n
        invariant
            i <= n,
            n == s@.len(),
            find_char_spec(s@, c) == match find_char_spec(s@.skip(i as int), c) {
                None => None::<int>,
                Some(k) => Some(k + i),
            },
        decreases n - i,
    {
        proof {
            assert(s@.skip(i as int)[0] == s@[i as int]);
            assert(s@.skip(i as int).skip(1) =~= s@.skip(i + 1));
        }
        if s.get_char(i) == c {
            return Some(i);
        }
        i += 1;
    }
    None
}

/// A trailing carriage return removed, as the standard line iterator does.
pub open spec fn strip_cr(s: Seq<char>) -> Seq<char> {
    if s.len() > 0 && s.last() == '\r' {
        s.drop_last()
    } else {
        s
    }
}

/// The lines of a text: split at newlines, each line's trailing carriage
/// return removed, a final empty fragment after a trailing newline dropped.
pub open spec fn lines_spec(s: Seq<char>) -> Seq<Seq<char>>
    decreases s.len(),
    via lines_spec_decreases
{
    if s.len() == 0 {
        Seq::empty()
    } else {
        match find_char_spec(s, '\n') {
            None => seq![strip_cr(s)],
            Some(i) => seq![strip_cr(s.take(i))] + lines_spec(s.skip(i + 1)),
        }
    }
}

proof fn lemma_find_char_in_range(s: Seq<char>, c: char)
    ensures
        match find_char_spec(s, c) {
            Some(i) => 0 <= i < s.len(),
            None => true,
        },
    decreases s.len(),
{
    if s.len() > 0 && s[0] != c {
        lemma_find_char_in_range(s.skip(1), c);
    }
}

#[via_fn]
proof fn lines_spec_decreases(s: Seq<char>) {
    lemma_find_char_in_range(s, '\n');
}

fn strip_cr_exec(s: &str) -> (r: &str)
    ensures
        r@ == strip_cr(s@),
{
    let n = s.unicode_len();
    if n > 0 && s.get_char(n - 1) == '\r' {
        let out = s.substring_char(0, n - 1);
        proof {
            assert(out@ =~= s@.drop_last());
        }
        out
    } else {
        s
    }
}

/// Splits a text into its lines, as the standard line iterator does.
pub fn split_lines(s: &str) -> (r: Vec<String>)
    ensures
        r.deep_view() == lines_spec(s@),
{
    let n = s.unicode_len();
    let mut lines: Vec<String> = Vec::new();
    let mut i: usize = 0;
    proof {
        assert(s@.skip(0) =~= s@);
        assert(lines.deep_view() =~= Seq::<Seq<char>>::empty());
    }
    while i < n
        invariant
            i <= n,
            n == s@.len(),
            lines.deep_view() + lines_spec(s@.skip(i as int)) == lines_spec(s@),
        decreases n - i,
    {
        let rest = s.substring_char(i, n);
        proof {
            assert(rest@ =~= s@.skip(i as int));
        }
        let next = match find_char(rest, '\n') {
            None => n,
            Some(k) => i + k,
        };
        let line = strip_cr_exec(s.substring_char(i, next));
        let owned = line.to_owned();
        proof {
            assert(s@.subrange(i as int, next as int) =~= rest@.take(next - i));
        }
        lines.push(owned);
        proof {
            assert(lines.deep_view() =~= lines@.map_values(|t: String| t@));
            if next == n && find_char_spec(rest@, '\n') is None {
                assert(lines_spec(rest@) == seq![strip_cr(rest@)]);
                assert(rest@.take(next - i) =~= rest@);
                assert(s@.skip(n as int) =~= Seq::<char>::empty());
                assert(lines_spec(s@.skip(n as int)) =~= Seq::<Seq<char>>::empty());
                assert(lines.deep_view() + lines_spec(s@.skip(n as int)) =~= lines_spec(s@));
            } else {
                assert(lines_spec(rest@) == seq![strip_cr(rest@.take(next - i))] + lines_spec(
                    rest@.skip(next - i + 1),
                ));
                assert(rest@.skip(next - i + 1) =~= s@.skip(next + 1));
                assert(lines.deep_view() + lines_spec(s@.skip(next + 1)) =~= lines_spec(s@));
            }
        }
        if next >= n {
            i = n;
        } else {
            i = next + 1;
        }
    }
    proof {
        assert(s@.skip(i as int) =~= Seq::<char>::empty());
        assert(lines_spec(s@.skip(i as int)) =~= Seq::<Seq<char>>::empty());
        assert(lines.deep_view() =~= lines_spec(s@));
    }
    lines
}

/// The sequence with every ASCII lowercase letter replaced by its uppercase
/// form, all other characters kept.
pub open spec fn upper_char(c: char) -> char {
    if 97 <= c as u32 <= 122 {
        (c as u32 - 32) as char
    } else {
        c
    }
}

/// The sequence with every ASCII uppercase letter replaced by its lowercase
/// form, all other characters kept.
pub open spec fn lower_char(c: char) -> char {
    if 65 <= c as u32 <= 90 {
        (c as u32 + 32) as char
    } else {
        c
    }
}

/// The character-wise ASCII uppercasing of a sequence.
pub open spec fn upper_seq(s: Seq<char>) -> Seq<char> {
    s.map_values(|c: char| upper_char(c))
}

/// The character-wise ASCII lowercasing of a sequence.
pub open spec fn lower_seq(s: Seq<char>) -> Seq<char> {
    s.map_values(|c: char| lower_char(c))
}

/// Relies on str::to_ascii_uppercase: ASCII lowercase letters are mapped to
/// their uppercase counterparts and every other character is kept unchanged.
#[verifier::external_body]
pub fn ascii_upper(s: &str) -> (r: String)
    ensures
        r@ == upper_seq(s@),
{
    s.to_ascii_uppercase()
}

/// Relies on str::to_ascii_lowercase: ASCII uppercase letters are mapped to
/// their lowercase counterparts and every other character is kept unchanged.
#[verifier::external_body]
pub fn ascii_lower(s: &str) -> (r: String)
    ensures
        r@ == lower_seq(s@),
{
    s.to_ascii_lowercase()
}

/// Whether `needle` occurs as a contiguous run inside `hay`.
pub open spec fn contains_sub(hay: Seq<char>, needle: Seq<char>) -> bool {
    exists|i: int|
        0 <= i <= hay.len() - needle.len() && #[trigger] hay.subrange(i, i + needle.len() as int)
            == needle
}

fn matches_at(hay: &str, needle: &str, at: usize) -> (r: bool)
    requires
        at + needle@.len() <= hay@.len(),
    ensures
        r == (hay@.subrange(at as int, at + needle@.len()) == needle@),
{
    let n = hay.unicode_len();
    let m = needle.unicode_len();
    let mut k: usize = 0;
    while k < m
        invariant
            k <= m,
            n == hay@.len(),
            m == needle@.len(),
            at + m <= n,
            forall|j: int| 0 <= j < k ==> hay@[at + j] == needle@[j],
        decreases m - k,
    {
        if hay.get_char(at + k) != needle.get_char(k) {
            assert(hay@.subrange(at as int, at + m)[k as int] != needle@[k as int]);
            return false;
        }
        k += 1;
    }
    proof {
        assert(hay@.subrange(at as int, at + m) =~= needle@);
    }
    true
}

/// Whether the needle occurs as a substring of the hay.
pub fn str_contains(hay: &str, needle: &str) -> (r: bool)
    ensures
        r == contains_sub(hay@, needle@),
{
    let n = hay.unicode_len();
    let m = needle.unicode_len();
    if m > n {
        assert(!contains_sub(hay@, needle@));
        return false;
    }
    if m == 0 {
        proof {
            let z: int = 0;
            assert(hay@.subrange(z, z + needle@.len() as int) =~= needle@);
            assert(contains_sub(hay@, needle@));
        }
        return true;
    }
    let mut i: usize = 0;
    while i <= n - m
        invariant
            1 <= m <= n,
            n == hay@.len(),
            m == needle@.len(),
            i <= n - m + 1,
            forall|j: int|
                0 <= j < i ==> #[trigger] hay@.subrange(j, j + needle@.len() as int) != needle@,
        decreases n - i,
    {
        if matches_at(hay, needle, i) {
            return true;
        }
        i += 1;
    }
    false
}

} // verus!
