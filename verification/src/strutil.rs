use vstd::prelude::*;
use vstd::string::*;

verus! {

// ---------- splitting ----------

/// Splitting a character sequence on a separator, in the manner of
/// `str::split`: the empty sequence yields one empty piece, and every
/// separator starts a new piece.
pub open spec fn spec_split(s: Seq<char>, sep: char) -> Seq<Seq<char>>
    decreases s.len(),
{
    if s.len() == 0 {
        seq![Seq::<char>::empty()]
    } else if s[0] == sep {
        seq![Seq::<char>::empty()] + spec_split(s.drop_first(), sep)
    } else {
        let rest = spec_split(s.drop_first(), sep);
        rest.update(0, seq![s[0]] + rest[0])
    }
}

pub proof fn lemma_split_len(s: Seq<char>, sep: char)
    ensures
        spec_split(s, sep).len() >= 1,
    decreases s.len(),
{
    if s.len() == 0 {
    } else {
        lemma_split_len(s.drop_first(), sep);
    }
}

/// A piece of the split never contains the separator.
pub proof fn lemma_split_no_sep(s: Seq<char>, sep: char)
    ensures
        forall|i: int, j: int|
            0 <= i < spec_split(s, sep).len() && 0 <= j < spec_split(s, sep)[i].len()
                ==> spec_split(s, sep)[i][j] != sep,
    decreases s.len(),
{
    if s.len() == 0 {
    } else if s[0] == sep {
        lemma_split_no_sep(s.drop_first(), sep);
        let rest = spec_split(s.drop_first(), sep);
        let whole = spec_split(s, sep);
        assert forall|i: int, j: int|
            0 <= i < whole.len() && 0 <= j < whole[i].len() implies whole[i][j] != sep by {
            if i > 0 {
                assert(whole[i] == rest[i - 1]);
            }
        }
    } else {
        lemma_split_no_sep(s.drop_first(), sep);
        lemma_split_len(s.drop_first(), sep);
        let rest = spec_split(s.drop_first(), sep);
        let whole = spec_split(s, sep);
        assert forall|i: int, j: int|
            0 <= i < whole.len() && 0 <= j < whole[i].len() implies whole[i][j] != sep by {
            if i == 0 {
                assert(whole[0] == seq![s[0]] + rest[0]);
                if j > 0 {
                    assert(whole[0][j] == rest[0][j - 1]);
                }
            } else {
                assert(whole[i] == rest[i]);
            }
        }
    }
}

pub fn split_char(s: &str, sep: char) -> (r: Vec<String>)
    ensures
        r.deep_view() == spec_split(s@, sep),
{
    let n = s.unicode_len();
    let mut r: Vec<String> = Vec::new();
    let mut start: usize = 0;
    let mut i: usize = 0;
    proof {
        lemma_split_len(s@, sep);
        let ss = spec_split(s@, sep);
        assert(s@.subrange(0, n as int) =~= s@);
        assert(s@.subrange(0, 0) + ss[0] =~= ss[0]);
        assert(prepend_first(s@.subrange(0, 0), ss) =~= ss);
        assert(r.deep_view() + ss =~= ss);
    }
    while i < n
        invariant
            0 <= start <= i <= n,
            n == s@.len(),
            spec_split(s@, sep) == r.deep_view() + prepend_first(
                s@.subrange(start as int, i as int),
                spec_split(s@.subrange(i as int, n as int), sep),
            ),
        decreases n - i,
    {
        let c = s.get_char(i);
        proof {
            lemma_split_step(s@, sep, start as int, i as int);
        }
        if c == sep {
            let piece = s.substring_char(start, i).to_owned();
            let ghost old_r = r.deep_view();
            r.push(piece);
            proof {
                lemma_split_len(s@.subrange(i as int + 1, n as int), sep);
                let ss = spec_split(s@.subrange(i as int + 1, n as int), sep);
                assert(r.deep_view() =~= old_r + seq![piece@]);
                assert(s@.subrange(i as int + 1, i as int + 1) + ss[0] =~= ss[0]);
                assert(prepend_first(s@.subrange(i as int + 1, i as int + 1), ss) =~= ss);
                assert((old_r + seq![piece@]) + ss =~= old_r + (seq![
                    s@.subrange(start as int, i as int),
                ] + ss));
                assert(r.deep_view() + prepend_first(
                    s@.subrange(i as int + 1, i as int + 1),
                    spec_split(s@.subrange(i as int + 1, n as int), sep),
                ) =~= spec_split(s@, sep));
            }
            start = i + 1;
        } else {
            proof {
                assert(r.deep_view() + prepend_first(
                    s@.subrange(start as int, i as int + 1),
                    spec_split(s@.subrange(i as int + 1, n as int), sep),
                ) =~= spec_split(s@, sep));
            }
        }
        i = i + 1;
    }
    let piece = s.substring_char(start, n).to_owned();
    let ghost old_r = r.deep_view();
    r.push(piece);
    proof {
        assert(s@.subrange(i as int, n as int).len() == 0);
        assert(prepend_first(
            s@.subrange(start as int, n as int),
            spec_split(s@.subrange(n as int, n as int), sep),
        ) =~= seq![s@.subrange(start as int, n as int)]);
        assert(r.deep_view() =~= old_r + seq![piece@]);
        assert(r.deep_view() =~= spec_split(s@, sep));
    }
    r
}

/// Glues a partial leading piece onto the first element of a split result.
pub open spec fn prepend_first(p: Seq<char>, ss: Seq<Seq<char>>) -> Seq<Seq<char>> {
    ss.update(0, p + ss[0])
}

/// One scanning step of `split_char`: consuming the character at `i`
/// either extends the current piece or closes it.
proof fn lemma_split_step(s: Seq<char>, sep: char, start: int, i: int)
    requires
        0 <= start <= i < s.len(),
    ensures
        s[i] == sep ==> prepend_first(
            s.subrange(start, i),
            spec_split(s.subrange(i, s.len() as int), sep),
        ) =~= seq![s.subrange(start, i)] + spec_split(s.subrange(i + 1, s.len() as int), sep),
        s[i] != sep ==> prepend_first(
            s.subrange(start, i),
            spec_split(s.subrange(i, s.len() as int), sep),
        ) =~= prepend_first(
            s.subrange(start, i + 1),
            spec_split(s.subrange(i + 1, s.len() as int), sep),
        ),
{
    let suf = s.subrange(i, s.len() as int);
    let suf1 = s.subrange(i + 1, s.len() as int);
    assert(suf.len() > 0);
    assert(suf[0] == s[i]);
    assert(suf.drop_first() =~= suf1);
    lemma_split_len(suf1, sep);
    if s[i] == sep {
        assert(spec_split(suf, sep) == seq![Seq::<char>::empty()] + spec_split(suf1, sep));
        let ss = seq![Seq::<char>::empty()] + spec_split(suf1, sep);
        assert(ss[0] == Seq::<char>::empty());
        assert(s.subrange(start, i) + ss[0] =~= s.subrange(start, i));
        assert(prepend_first(s.subrange(start, i), ss) =~= seq![s.subrange(start, i)]
            + spec_split(suf1, sep));
    } else {
        let rest = spec_split(suf1, sep);
        assert(spec_split(suf, sep) == rest.update(0, seq![suf[0]] + rest[0]));
        assert(s.subrange(start, i) + (seq![s[i]] + rest[0]) =~= s.subrange(start, i + 1)
            + rest[0]);
        assert(prepend_first(s.subrange(start, i), rest.update(0, seq![suf[0]] + rest[0]))
            =~= rest.update(0, s.subrange(start, i + 1) + rest[0]));
    }
}

// ---------- equality and copying ----------

pub fn str_eq(a: &str, b: &str) -> (r: bool)
    ensures
        r == (a@ == b@),
{
    let x: String = a.to_owned();
    let y: String = b.to_owned();
    x == y
}

// ---------- membership ----------

pub open spec fn contains_view(s: Seq<String>, v: Seq<char>) -> bool {
    exists|i: int| 0 <= i < s.len() && s[i]@ == v
}

#[verifier::loop_isolation(false)]
pub fn contains_str(v: &Vec<String>, s: &str) -> (r: bool)
    ensures
        r == contains_view(v@, s@),
{
    let mut i: usize = 0;
    while i < v.len()
        invariant
            0 <= i <= v@.len(),
            forall|j: int| 0 <= j < i ==> v@[j]@ != s@,
        decreases v@.len() - i,
    {
        if str_eq(v[i].as_str(), s) {
            proof {
                assert(v@[i as int]@ == s@);
            }
            return true;
        }
        i = i + 1;
    }
    false
}

// ---------- trimming ----------

pub open spec fn spec_is_space(c: char) -> bool {
    c == ' ' || c == '\t' || c == '\r' || c == '\n'
}

pub fn is_space(c: char) -> (r: bool)
    ensures
        r == spec_is_space(c),
{
    c == ' ' || c == '\t' || c == '\r' || c == '\n'
}

/// The trimmed form of `s`: the subrange from the first to the last
/// character that is not whitespace.
pub open spec fn spec_trim(s: Seq<char>) -> Seq<char> {
    let a = spec_trim_start(s);
    let b = spec_trim_end(s);
    if a < b {
        s.subrange(a, b)
    } else {
        Seq::empty()
    }
}

/// Index of the first non-space character, or the length if all are spaces.
pub open spec fn spec_trim_start(s: Seq<char>) -> int
    decreases s.len(),
{
    if s.len() == 0 {
        0
    } else if spec_is_space(s[0]) {
        1 + spec_trim_start(s.drop_first())
    } else {
        0
    }
}

/// One past the index of the last non-space character, or 0 if all are spaces.
pub open spec fn spec_trim_end(s: Seq<char>) -> int
    decreases s.len(),
{
    if s.len() == 0 {
        0
    } else if spec_is_space(s.last()) {
        spec_trim_end(s.drop_last())
    } else {
        s.len() as int
    }
}

proof fn lemma_trim_start_bounds(s: Seq<char>)
    ensures
        0 <= spec_trim_start(s) <= s.len(),
        forall|j: int| 0 <= j < spec_trim_start(s) ==> spec_is_space(s[j]),
        spec_trim_start(s) < s.len() ==> !spec_is_space(s[spec_trim_start(s)]),
    decreases s.len(),
{
    if s.len() > 0 && spec_is_space(s[0]) {
        lemma_trim_start_bounds(s.drop_first());
        assert forall|j: int| 0 <= j < spec_trim_start(s) implies spec_is_space(s[j]) by {
            if j > 0 {
                assert(spec_is_space(s.drop_first()[j - 1]));
                assert(s.drop_first()[j - 1] == s[j]);
            }
        }
    }
}

proof fn lemma_trim_end_bounds(s: Seq<char>)
    ensures
        0 <= spec_trim_end(s) <= s.len(),
        forall|j: int| spec_trim_end(s) <= j < s.len() ==> spec_is_space(s[j]),
        spec_trim_end(s) > 0 ==> !spec_is_space(s[spec_trim_end(s) - 1]),
    decreases s.len(),
{
    if s.len() > 0 && spec_is_space(s.last()) {
        lemma_trim_end_bounds(s.drop_last());
        assert forall|j: int| spec_trim_end(s) <= j < s.len() implies spec_is_space(s[j]) by {
            if j < s.len() - 1 {
                assert(spec_is_space(s.drop_last()[j]));
                assert(s.drop_last()[j] == s[j]);
            }
        }
    }
}

pub fn trim_str(s: &str) -> (r: &str)
    ensures
        r@ == spec_trim(s@),
{
    let n = s.unicode_len();
    let mut a: usize = 0;
    proof {
        lemma_trim_start_bounds(s@);
    }
    while a < n && is_space(s.get_char(a))
        invariant
            0 <= a <= n,
            n == s@.len(),
            forall|j: int| 0 <= j < a ==> spec_is_space(s@[j]),
            a <= spec_trim_start(s@),
        decreases n - a,
    {
        proof {
            lemma_trim_start_bounds(s@);
            if spec_trim_start(s@) <= a {
                assert(spec_is_space(s@[spec_trim_start(s@)]));
            }
        }
        a = a + 1;
    }
    proof {
        lemma_trim_start_bounds(s@);
        if a < spec_trim_start(s@) {
            assert(spec_is_space(s@[a as int]));
        }
        assert(a == spec_trim_start(s@));
    }
    let mut b: usize = n;
    proof {
        lemma_trim_end_bounds(s@);
    }
    while b > a && is_space(s.get_char(b - 1))
        invariant
            a <= b <= n,
            n == s@.len(),
            a == spec_trim_start(s@),
            forall|j: int| b <= j < n ==> spec_is_space(s@[j]),
            b >= spec_trim_end(s@),
        decreases b,
    {
        proof {
            lemma_trim_end_bounds(s@);
            if b - 1 < spec_trim_end(s@) {
                assert(spec_is_space(s@[spec_trim_end(s@) - 1]));
            }
        }
        b = b - 1;
    }
    proof {
        lemma_trim_start_bounds(s@);
        lemma_trim_end_bounds(s@);
        if b > a {
            assert(!spec_is_space(s@[a as int]));
            if b < spec_trim_end(s@) {
                assert(spec_is_space(s@[b as int]));
            }
            assert(b == spec_trim_end(s@));
        } else {
            if spec_trim_end(s@) > spec_trim_start(s@) {
                assert(spec_is_space(s@[spec_trim_end(s@) - 1]));
                assert(!spec_is_space(s@[spec_trim_end(s@) - 1]));
            }
            assert(s@.subrange(a as int, b as int) =~= Seq::<char>::empty());
        }
    }
    s.substring_char(a, b)
}

// ---------- decimal digits ----------

pub open spec fn spec_is_digit(c: char) -> bool {
    c == '0' || c == '1' || c == '2' || c == '3' || c == '4' || c == '5' || c == '6' || c == '7'
        || c == '8' || c == '9'
}

pub open spec fn spec_digit_val(c: char) -> int {
    if c == '0' {
        0
    } else if c == '1' {
        1
    } else if c == '2' {
        2
    } else if c == '3' {
        3
    } else if c == '4' {
        4
    } else if c == '5' {
        5
    } else if c == '6' {
        6
    } else if c == '7' {
        7
    } else if c == '8' {
        8
    } else {
        9
    }
}

pub open spec fn spec_digit_char(d: int) -> char {
    if d == 0 {
        '0'
    } else if d == 1 {
        '1'
    } else if d == 2 {
        '2'
    } else if d == 3 {
        '3'
    } else if d == 4 {
        '4'
    } else if d == 5 {
        '5'
    } else if d == 6 {
        '6'
    } else if d == 7 {
        '7'
    } else if d == 8 {
        '8'
    } else {
        '9'
    }
}

fn digit_str(d: u64) -> (r: &'static str)
    requires
        d < 10,
    ensures
        r@ =~= seq![spec_digit_char(d as int)],
{
    proof {
        reveal_strlit("0");
        reveal_strlit("1");
        reveal_strlit("2");
        reveal_strlit("3");
        reveal_strlit("4");
        reveal_strlit("5");
        reveal_strlit("6");
        reveal_strlit("7");
        reveal_strlit("8");
        reveal_strlit("9");
    }
    match d {
        0 => "0",
        1 => "1",
        2 => "2",
        3 => "3",
        4 => "4",
        5 => "5",
        6 => "6",
        7 => "7",
        8 => "8",
        _ => "9",
    }
}

/// The decimal digit string of a non-negative integer, without sign
/// and without leading zeros (except for zero itself).
pub open spec fn spec_u64_digits(n: int) -> Seq<char>
    decreases n,
{
    if n < 10 {
        seq![spec_digit_char(n)]
    } else {
        spec_u64_digits(n / 10) + seq![spec_digit_char(n % 10)]
    }
}

pub fn u64_to_string(n: u64) -> (r: String)
    ensures
        r@ == spec_u64_digits(n as int),
    decreases n,
{
    if n < 10 {
        digit_str(n).to_owned()
    } else {
        let mut s = u64_to_string(n / 10);
        s.append(digit_str(n % 10));
        proof {
            assert(s@ =~= spec_u64_digits(n as int));
        }
        s
    }
}

pub open spec fn spec_i64_str(n: int) -> Seq<char> {
    if n < 0 {
        seq!['-'] + spec_u64_digits(-n)
    } else {
        spec_u64_digits(n)
    }
}

pub fn i64_to_string(n: i64) -> (r: String)
    ensures
        r@ == spec_i64_str(n as int),
{
    if n >= 0 {
        u64_to_string(n as u64)
    } else {
        let m: u64 = if n == i64::MIN {
            9223372036854775808u64
        } else {
            (-n) as u64
        };
        let mut s = "-".to_owned();
        proof {
            reveal_strlit("-");
            assert("-"@ =~= seq!['-']);
        }
        let d = u64_to_string(m);
        s.append(d.as_str());
        proof {
            assert(s@ =~= spec_i64_str(n as int));
        }
        s
    }
}

// ---------- joining ----------

/// The items each followed by a newline, concatenated.
pub open spec fn spec_joined(items: Seq<Seq<char>>) -> Seq<char>
    decreases items.len(),
{
    if items.len() == 0 {
        Seq::empty()
    } else {
        spec_joined(items.drop_last()) + items.last() + "\n"@
    }
}

// ---------- integer parsing ----------

pub fn is_digit_char(c: char) -> (r: bool)
    ensures
        r == spec_is_digit(c),
{
    c == '0' || c == '1' || c == '2' || c == '3' || c == '4' || c == '5' || c == '6' || c == '7'
        || c == '8' || c == '9'
}

pub fn digit_val_char(c: char) -> (r: u64)
    requires
        spec_is_digit(c),
    ensures
        r == spec_digit_val(c),
{
    if c == '0' {
        0
    } else if c == '1' {
        1
    } else if c == '2' {
        2
    } else if c == '3' {
        3
    } else if c == '4' {
        4
    } else if c == '5' {
        5
    } else if c == '6' {
        6
    } else if c == '7' {
        7
    } else if c == '8' {
        8
    } else {
        9
    }
}

pub open spec fn spec_all_digits(s: Seq<char>) -> bool {
    s.len() > 0 && forall|i: int| 0 <= i < s.len() ==> spec_is_digit(s[i])
}

pub open spec fn spec_digits_val(s: Seq<char>) -> int
    decreases s.len(),
{
    if s.len() == 0 {
        0
    } else {
        spec_digits_val(s.drop_last()) * 10 + spec_digit_val(s.last())
    }
}

/// The value denoted by a decimal string in the manner of `str::parse`
/// to a signed integer: an optional sign, then at least one ASCII digit,
/// and nothing else; any other shape has no value.
pub open spec fn spec_parse_int(s: Seq<char>) -> Option<int> {
    if s.len() > 0 && (s[0] == '+' || s[0] == '-') {
        let ds = s.drop_first();
        if spec_all_digits(ds) {
            Some(
                if s[0] == '-' {
                    -spec_digits_val(ds)
                } else {
                    spec_digits_val(ds)
                },
            )
        } else {
            None
        }
    } else {
        if spec_all_digits(s) {
            Some(spec_digits_val(s))
        } else {
            None
        }
    }
}

pub open spec fn pow10(n: int) -> int
    decreases n,
{
    if n <= 0 {
        1
    } else {
        10 * pow10(n - 1)
    }
}

proof fn lemma_digits_val_upper(s: Seq<char>)
    requires
        forall|i: int| 0 <= i < s.len() ==> spec_is_digit(s[i]),
    ensures
        0 <= spec_digits_val(s) < pow10(s.len() as int),
    decreases s.len(),
{
    if s.len() > 0 {
        lemma_digits_val_upper(s.drop_last());
    }
}

proof fn lemma_digits_val_lower(s: Seq<char>)
    requires
        spec_all_digits(s),
        s[0] != '0',
    ensures
        spec_digits_val(s) >= pow10(s.len() - 1),
    decreases s.len(),
{
    if s.len() == 1 {
        reveal_with_fuel(spec_digits_val, 3);
        assert(s.drop_last().len() == 0);
        assert(s.last() == s[0]);
        assert(spec_digits_val(s) == spec_digit_val(s[0]));
    } else {
        lemma_digits_val_lower(s.drop_last());
        assert(s.drop_last()[0] == s[0]);
        lemma_digits_val_upper(s);
    }
}

proof fn lemma_digits_val_drop_zero(t: Seq<char>)
    ensures
        spec_digits_val(seq!['0'] + t) == spec_digits_val(t),
    decreases t.len(),
{
    if t.len() == 0 {
        reveal_with_fuel(spec_digits_val, 3);
        assert(seq!['0'] + t =~= seq!['0']);
        assert((seq!['0']).drop_last() =~= Seq::<char>::empty());
        assert(spec_digits_val(seq!['0']) == spec_digit_val('0'));
    } else {
        lemma_digits_val_drop_zero(t.drop_last());
        assert((seq!['0'] + t).drop_last() =~= seq!['0'] + t.drop_last());
        assert((seq!['0'] + t).last() == t.last());
    }
}

#[verifier::loop_isolation(false)]
pub fn parse_i64(s: &str) -> (r: Option<i64>)
    ensures
        match spec_parse_int(s@) {
            Option::None => r is None,
            Option::Some(v) => if i64::MIN <= v <= i64::MAX {
                r == Some(v as i64)
            } else {
                r is None
            },
        },
{
    let n = s.unicode_len();
    let mut i: usize = 0;
    let mut neg = false;
    if n > 0 {
        let c0 = s.get_char(0);
        if c0 == '+' {
            i = 1;
        } else if c0 == '-' {
            neg = true;
            i = 1;
        }
    }
    if i >= n {
        // empty input, or a sign with no digits
        return None;
    }
    let ghost ds = if i == 1 {
        s@.drop_first()
    } else {
        s@
    };
    proof {
        assert(ds =~= s@.subrange(i as int, n as int));
    }
    // every remaining character must be a digit
    let mut j: usize = i;
    while j < n
        invariant
            i <= j <= n,
            n == s@.len(),
            i < n,
            forall|t: int| i <= t < j ==> spec_is_digit(s@[t]),
        decreases n - j,
    {
        if !is_digit_char(s.get_char(j)) {
            proof {
                assert(!spec_is_digit(s@.subrange(i as int, n as int)[j - i]));
            }
            return None;
        }
        j = j + 1;
    }
    proof {
        assert(spec_all_digits(ds)) by {
            assert(forall|t: int|
                0 <= t < ds.len() ==> spec_is_digit(#[trigger] ds[t]) && ds[t] == s@[t + i]);
        }
    }
    // skip leading zeros, keeping at least one digit
    let mut k: usize = i;
    while k < n - 1 && s.get_char(k) == '0'
        invariant
            i <= k <= n - 1,
            n == s@.len(),
            i < n,
            forall|t: int| i <= t < n ==> spec_is_digit(s@[t]),
            spec_digits_val(s@.subrange(i as int, n as int)) == spec_digits_val(
                s@.subrange(k as int, n as int),
            ),
        decreases n - k,
    {
        proof {
            assert(s@.subrange(k as int, n as int) =~= seq!['0'] + s@.subrange(
                k as int + 1,
                n as int,
            ));
            lemma_digits_val_drop_zero(s@.subrange(k as int + 1, n as int));
        }
        k = k + 1;
    }
    let ghost kept = s@.subrange(k as int, n as int);
    if n - k > 19 {
        // at least twenty significant digits: past either bound of i64
        proof {
            assert(kept[0] == s@[k as int]);
            assert(kept[0] != '0');
            assert(spec_all_digits(kept));
            lemma_digits_val_lower(kept);
            assert(pow10(19) == 10000000000000000000) by {
                reveal_with_fuel(pow10, 21);
            }
            assert(pow10(kept.len() - 1) >= pow10(19)) by {
                lemma_pow10_mono(19, kept.len() - 1);
            }
        }
        return None;
    }
    let mut acc: u64 = 0;
    let mut m: usize = k;
    while m < n
        invariant
            k <= m <= n,
            n == s@.len(),
            n - k <= 19,
            forall|t: int| k <= t < n ==> spec_is_digit(s@[t]),
            acc == spec_digits_val(s@.subrange(k as int, m as int)),
            acc < pow10(m - k),
        decreases n - m,
    {
        let c = s.get_char(m);
        proof {
            assert(spec_is_digit(s@[m as int]));
        }
        let d: u64 = digit_val_char(c);
        proof {
            lemma_pow10_mono(m - k + 1, 19);
            assert(pow10(19) == 10000000000000000000) by {
                reveal_with_fuel(pow10, 21);
            }
            assert(acc * 10 + d < pow10(m - k + 1));
            assert(s@.subrange(k as int, m as int + 1).drop_last() =~= s@.subrange(
                k as int,
                m as int,
            ));
        }
        acc = acc * 10 + d;
        m = m + 1;
    }
    proof {
        assert(s@.subrange(k as int, m as int) =~= kept);
        if i == 1 && s@[0] == '-' {
            assert(spec_parse_int(s@) == Some(-spec_digits_val(ds)));
        }
    }
    if neg {
        if acc > 9223372036854775808u64 {
            proof {
                lemma_digits_val_upper(ds);
            }
            None
        } else if acc == 9223372036854775808u64 {
            Some(i64::MIN)
        } else {
            Some(-(acc as i64))
        }
    } else {
        if acc > 9223372036854775807u64 {
            None
        } else {
            Some(acc as i64)
        }
    }
}

proof fn lemma_pow10_mono(a: int, b: int)
    requires
        a <= b,
    ensures
        pow10(a) <= pow10(b),
        pow10(a) >= 1,
    decreases b - a,
{
    if a < b {
        lemma_pow10_mono(a, b - 1);
    } else {
        lemma_pow10_pos(a);
    }
}

proof fn lemma_pow10_pos(a: int)
    ensures
        pow10(a) >= 1,
    decreases (if a > 0 {
        a
    } else {
        0
    }),
{
    if a > 0 {
        lemma_pow10_pos(a - 1);
    }
}

// ---------- padding ----------

/// Left-padding to a width, in the manner of a right-justified field:
/// too-short values are preceded by copies of the pad character.
pub open spec fn spec_pad_left(s: Seq<char>, c: char, width: int) -> Seq<char> {
    if s.len() >= width {
        s
    } else {
        Seq::new((width - s.len()) as nat, |i: int| c) + s
    }
}

pub fn pad_left(s: &str, pad: &str, width: usize) -> (r: String)
    requires
        pad@.len() == 1,
    ensures
        r@ == spec_pad_left(s@, pad@[0], width as int),
{
    let n = s.unicode_len();
    if n >= width {
        s.to_owned()
    } else {
        let mut r = String::new();
        let mut i: usize = 0;
        while i < width - n
            invariant
                0 <= i <= width - n,
                n == s@.len(),
                n < width,
                pad@.len() == 1,
                r@ =~= Seq::new(i as nat, |j: int| pad@[0]),
            decreases width - n - i,
        {
            r.append(pad);
            proof {
                assert(r@ =~= Seq::new((i + 1) as nat, |j: int| pad@[0]));
            }
            i = i + 1;
        }
        r.append(s);
        proof {
            assert(r@ =~= spec_pad_left(s@, pad@[0], width as int));
        }
        r
    }
}

} // verus!
