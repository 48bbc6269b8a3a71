use vstd::prelude::*;

verus! {

/// Why a resolution string of the form `<height>x<width>` was rejected.
#[derive(Debug, Clone, Copy, PartialEq, Eq, Structural)]
pub enum ResolutionError {
    /// The string is empty: there is no height field at all.
    MissingHeight,
    /// The string holds no `x` separator, so there is no width field.
    MissingWidth,
    /// The string holds more than one `x` separator.
    TooManySeparators,
    /// The height field is not an unsigned 32-bit decimal number.
    InvalidHeight,
    /// The width field is not an unsigned 32-bit decimal number.
    InvalidWidth,
}

impl ResolutionError {
    /// A short message for the user: the same for a missing and a malformed field.
    pub fn message(&self) -> (m: &'static str)
        ensures
            m@ == match *self {
                ResolutionError::MissingHeight | ResolutionError::InvalidHeight => "Invalid height!"@,
                ResolutionError::MissingWidth | ResolutionError::InvalidWidth => "Invalid width!"@,
                ResolutionError::TooManySeparators => "Invalid resolution string!"@,
            },
    {
        match self {
            ResolutionError::MissingHeight => "Invalid height!",
            ResolutionError::InvalidHeight => "Invalid height!",
            ResolutionError::MissingWidth => "Invalid width!",
            ResolutionError::InvalidWidth => "Invalid width!",
            ResolutionError::TooManySeparators => "Invalid resolution string!",
        }
    }
}

/// White space as `char::is_whitespace` defines it (the Unicode `White_Space` property).
pub open spec fn is_white(c: char) -> bool {
    let u = c as u32;
    (0x9 <= u <= 0xd) || u == 0x20 || u == 0x85 || u == 0xa0 || u == 0x1680
        || (0x2000 <= u <= 0x200a) || u == 0x2028 || u == 0x2029 || u == 0x202f
        || u == 0x205f || u == 0x3000
}

pub open spec fn is_digit(c: char) -> bool {
    '0' <= c <= '9'
}

pub open spec fn digit_value(c: char) -> nat {
    (c as u32 - '0' as u32) as nat
}

/// `s` without its leading white space.
pub open spec fn trim_start(s: Seq<char>) -> Seq<char>
    decreases s.len(),
{
    if s.len() > 0 && is_white(s[0]) {
        trim_start(s.drop_first())
    } else {
        s
    }
}

/// `s` without its trailing white space.
pub open spec fn trim_end(s: Seq<char>) -> Seq<char>
    decreases s.len(),
{
    if s.len() > 0 && is_white(s.last()) {
        trim_end(s.drop_last())
    } else {
        s
    }
}

/// `s` without white space at either end.
pub open spec fn trim(s: Seq<char>) -> Seq<char> {
    trim_end(trim_start(s))
}

pub open spec fn all_digits(s: Seq<char>) -> bool {
    forall|i: int| 0 <= i < s.len() ==> is_digit(#[trigger] s[i])
}

/// The number that the decimal digits `s` write, most significant first.
pub open spec fn digits_value(s: Seq<char>) -> nat
    decreases s.len(),
{
    if s.len() == 0 {
        0
    } else {
        digits_value(s.drop_last()) * 10 + digit_value(s.last())
    }
}

/// The digits of a field once white space and an optional leading `+` are taken off.
pub open spec fn unsigned_digits(s: Seq<char>) -> Seq<char> {
    let t = trim(s);
    if t.len() > 0 && t[0] == '+' {
        t.drop_first()
    } else {
        t
    }
}

/// The value of a numeric field, if it is at most `limit`: white space around it
/// is ignored, a leading `+` is allowed, then one or more decimal digits.
pub open spec fn unsigned_value(s: Seq<char>, limit: nat) -> Option<nat> {
    let d = unsigned_digits(s);
    if d.len() > 0 && all_digits(d) && digits_value(d) <= limit {
        Some(digits_value(d))
    } else {
        None
    }
}

/// The value of a field that must fit in a `u32`.
pub open spec fn field_value(s: Seq<char>) -> Option<u32> {
    match unsigned_value(s, u32::MAX as nat) {
        Some(v) => Some(v as u32),
        None => None,
    }
}

/// The value of a field that must fit in a `usize`.
pub open spec fn count_value(s: Seq<char>) -> Option<usize> {
    match unsigned_value(s, usize::MAX as nat) {
        Some(v) => Some(v as usize),
        None => None,
    }
}

proof fn lemma_trim_start(s: Seq<char>, a: int)
    requires
        0 <= a <= s.len(),
        forall|i: int| 0 <= i < a ==> is_white(#[trigger] s[i]),
        a == s.len() || !is_white(s[a]),
    ensures
        trim_start(s) == s.subrange(a, s.len() as int),
    decreases a,
{
    if a == 0 {
        assert(s.subrange(0, s.len() as int) =~= s);
    } else {
        let t = s.drop_first();
        assert forall|i: int| 0 <= i < a - 1 implies is_white(#[trigger] t[i]) by {
            assert(t[i] == s[i + 1]);
        }
        lemma_trim_start(t, a - 1);
        assert(t.subrange(a - 1, t.len() as int) =~= s.subrange(a, s.len() as int));
    }
}

proof fn lemma_trim_end(s: Seq<char>, b: int)
    requires
        0 <= b <= s.len(),
        forall|i: int| b <= i < s.len() ==> is_white(#[trigger] s[i]),
        b == 0 || !is_white(s[b - 1]),
    ensures
        trim_end(s) == s.subrange(0, b),
    decreases s.len() - b,
{
    if b == s.len() {
        assert(s.subrange(0, b) =~= s);
    } else {
        let t = s.drop_last();
        assert forall|i: int| b <= i < t.len() implies is_white(#[trigger] t[i]) by {
            assert(t[i] == s[i]);
        }
        lemma_trim_end(t, b);
        assert(t.subrange(0, b) =~= s.subrange(0, b));
    }
}

proof fn lemma_digits_prefix_bound(s: Seq<char>, k: int)
    requires
        0 <= k <= s.len(),
    ensures
        digits_value(s.subrange(0, k)) <= digits_value(s),
    decreases s.len(),
{
    if k == s.len() {
        assert(s.subrange(0, k) =~= s);
    } else {
        let t = s.drop_last();
        lemma_digits_prefix_bound(t, k);
        assert(t.subrange(0, k) =~= s.subrange(0, k));
    }
}

fn is_white_char(c: char) -> (r: bool)
    ensures
        r == is_white(c),
{
    let u = c as u32;
    (0x9 <= u && u <= 0xd) || u == 0x20 || u == 0x85 || u == 0xa0 || u == 0x1680
        || (0x2000 <= u && u <= 0x200a) || u == 0x2028 || u == 0x2029 || u == 0x202f
        || u == 0x205f || u == 0x3000
}

/// Reads a numeric field no larger than `limit`, as `str::parse` reads an
/// unsigned integer after `str::trim`.
fn parse_unsigned(s: &str, limit: u64) -> (r: Option<u64>)
    ensures
        match unsigned_value(s@, limit as nat) {
            Some(v) => r == Some(v as u64),
            None => r is None,
        },
{
    let n = s.unicode_len();
    let mut a: usize = 0;
    while a < n && is_white_char(s.get_char(a))
        invariant
            n == s@.len(),
            a <= n,
            forall|i: int| 0 <= i < a ==> is_white(#[trigger] s@[i]),
        decreases n - a,
    {
        a = a + 1;
    }
    proof {
        lemma_trim_start(s@, a as int);
    }
    let ghost lead = s@.subrange(a as int, n as int);
    let mut b: usize = n;
    while b > a && is_white_char(s.get_char(b - 1))
        invariant
            n == s@.len(),
            a <= b <= n,
            forall|i: int| b <= i < n ==> is_white(#[trigger] s@[i]),
        decreases b,
    {
        b = b - 1;
    }
    proof {
        assert forall|i: int| b - a <= i < lead.len() implies is_white(#[trigger] lead[i]) by {
            assert(lead[i] == s@[i + a]);
        }
        lemma_trim_end(lead, b - a);
        assert(lead.subrange(0, b - a) =~= s@.subrange(a as int, b as int));
    }
    assert(trim(s@) == s@.subrange(a as int, b as int));
    let mut start: usize = a;
    if a < b && s.get_char(a) == '+' {
        start = a + 1;
    }
    let ghost d = s@.subrange(start as int, b as int);
    assert(unsigned_digits(s@) =~= d);
    if start == b {
        return None;
    }
    let mut v: u128 = 0;
    let mut i: usize = start;
    while i < b
        invariant
            n == s@.len(),
            start <= i <= b <= n,
            d == s@.subrange(start as int, b as int),
            unsigned_digits(s@) == d,
            v == digits_value(d.subrange(0, i - start)),
            all_digits(d.subrange(0, i - start)),
            v <= limit,
        decreases b - i,
    {
        let c = s.get_char(i);
        if !('0' <= c && c <= '9') {
            assert(d[i - start] == c);
            assert(!all_digits(d));
            return None;
        }
        v = v * 10 + (c as u32 - '0' as u32) as u128;
        i = i + 1;
        assert(d.subrange(0, i - start).last() == c);
        assert(d.subrange(0, i - start).drop_last() =~= d.subrange(0, i - start - 1));
        assert(v == digits_value(d.subrange(0, i - start)));
        assert(all_digits(d.subrange(0, i - start))) by {
            assert(d.subrange(0, i - start) =~= d.subrange(0, i - start - 1).push(c));
        }
        if v > limit as u128 {
            proof {
                lemma_digits_prefix_bound(d, i - start);
                if all_digits(d) {
                    assert(digits_value(d) > limit);
                }
            }
            return None;
        }
    }
    assert(d.subrange(0, i - start) =~= d);
    Some(v as u64)
}

/// Reads a numeric field as `str::parse::<u32>` does after `str::trim`.
pub fn parse_field(s: &str) -> (r: Option<u32>)
    ensures
        r == field_value(s@),
{
    match parse_unsigned(s, 0xffff_ffff) {
        Some(v) => Some(v as u32),
        None => None,
    }
}

/// Reads an iteration count as `str::parse::<usize>` does after `str::trim`.
pub fn parse_count(s: &str) -> (r: Option<usize>)
    ensures
        r == count_value(s@),
{
    match parse_unsigned(s, usize::MAX as u64) {
        Some(v) => Some(v as usize),
        None => None,
    }
}

/// How many `x` separators `s` holds.
pub open spec fn separator_count(s: Seq<char>) -> nat
    decreases s.len(),
{
    if s.len() == 0 {
        0
    } else {
        separator_count(s.drop_last()) + if s.last() == 'x' {
            1nat
        } else {
            0nat
        }
    }
}

/// The outcome of reading `<height>x<width>`: the string must not be empty, must
/// hold exactly one `x`, and the fields on each side of it must be numbers
/// (`field_value`); the height is checked before the width.
pub open spec fn resolution_of(s: Seq<char>) -> Result<(u32, u32), ResolutionError> {
    if s.len() == 0 {
        Err(ResolutionError::MissingHeight)
    } else if separator_count(s) == 0 {
        Err(ResolutionError::MissingWidth)
    } else if separator_count(s) > 1 {
        Err(ResolutionError::TooManySeparators)
    } else {
        let k = choose|k: int| 0 <= k < s.len() && s[k] == 'x';
        match (field_value(s.subrange(0, k)), field_value(s.subrange(k + 1, s.len() as int))) {
            (None, _) => Err(ResolutionError::InvalidHeight),
            (Some(_), None) => Err(ResolutionError::InvalidWidth),
            (Some(h), Some(w)) => Ok((h, w)),
        }
    }
}

proof fn lemma_separator_count_step(s: Seq<char>, i: int)
    requires
        0 <= i < s.len(),
    ensures
        separator_count(s.subrange(0, i + 1)) == separator_count(s.subrange(0, i)) + if s[i]
            == 'x' {
            1nat
        } else {
            0nat
        },
{
    assert(s.subrange(0, i + 1).drop_last() =~= s.subrange(0, i));
}

proof fn lemma_separator_count_grows(s: Seq<char>, m: int, n: int)
    requires
        0 <= m <= n <= s.len(),
    ensures
        separator_count(s.subrange(0, m)) <= separator_count(s.subrange(0, n)),
    decreases n - m,
{
    if m < n {
        lemma_separator_count_step(s, n - 1);
        lemma_separator_count_grows(s, m, n - 1);
    }
}

/// With a single separator in `s`, any two places that hold `x` are the same.
proof fn lemma_single_separator(s: Seq<char>, j: int, k: int)
    requires
        separator_count(s) == 1,
        0 <= j < s.len(),
        0 <= k < s.len(),
        s[j] == 'x',
        s[k] == 'x',
    ensures
        j == k,
{
    if j != k {
        let (lo, hi) = if j < k { (j, k) } else { (k, j) };
        lemma_separator_count_step(s, lo);
        lemma_separator_count_grows(s, lo + 1, hi);
        lemma_separator_count_step(s, hi);
        lemma_separator_count_grows(s, hi + 1, s.len() as int);
        assert(s.subrange(0, s.len() as int) =~= s);
    }
}

/// Reads a resolution written `<height>x<width>` and returns `(height, width)`.
pub fn parse_resolution(resolution: &str) -> (r: Result<(u32, u32), ResolutionError>)
    ensures
        r == resolution_of(resolution@),
{
    let ghost s = resolution@;
    let n = resolution.unicode_len();
    if n == 0 {
        return Err(ResolutionError::MissingHeight);
    }
    let mut count: usize = 0;
    let mut pos: usize = 0;
    let mut i: usize = 0;
    while i < n
        invariant
            s == resolution@,
            n == s.len(),
            i <= n,
            count <= i,
            count == separator_count(s.subrange(0, i as int)),
            count > 0 ==> pos < i && s[pos as int] == 'x',
        decreases n - i,
    {
        proof {
            lemma_separator_count_step(s, i as int);
        }
        if resolution.get_char(i) == 'x' {
            if count == 0 {
                pos = i;
            }
            count = count + 1;
        }
        i = i + 1;
    }
    assert(s.subrange(0, n as int) =~= s);
    if count == 0 {
        return Err(ResolutionError::MissingWidth);
    }
    if count > 1 {
        return Err(ResolutionError::TooManySeparators);
    }
    let ghost k = choose|k: int| 0 <= k < s.len() && s[k] == 'x';
    proof {
        lemma_single_separator(s, pos as int, k);
    }
    let height = resolution.substring_char(0, pos);
    let width = resolution.substring_char(pos + 1, n);
    match parse_field(height) {
        None => Err(ResolutionError::InvalidHeight),
        Some(h) => match parse_field(width) {
            None => Err(ResolutionError::InvalidWidth),
            Some(w) => Ok((h, w)),
        },
    }
}

/// The decimal digit character for `d < 10`.
pub open spec fn digit_char(d: nat) -> char {
    if d == 0 {
        '0'
    } else if d == 1 {
        '1'
    } else if d == 2 {
        '2'
    } else if d == 3 {
        '3'
    } else if d == 4 {
        '4'
    } else if d == 5 {
        '5'
    } else if d == 6 {
        '6'
    } else if d == 7 {
        '7'
    } else if d == 8 {
        '8'
    } else {
        '9'
    }
}

/// `n` written in decimal, without leading zeros.
pub open spec fn decimal(n: nat) -> Seq<char>
    decreases n,
{
    if n < 10 {
        seq![digit_char(n)]
    } else {
        decimal(n / 10).push(digit_char(n % 10))
    }
}

pub open spec fn all_white(s: Seq<char>) -> bool {
    forall|i: int| 0 <= i < s.len() ==> is_white(#[trigger] s[i])
}

proof fn lemma_decimal(n: nat)
    ensures
        decimal(n).len() > 0,
        all_digits(decimal(n)),
        digits_value(decimal(n)) == n,
    decreases n,
{
    assert(digit_value(digit_char(n % 10)) == n % 10);
    if n >= 10 {
        lemma_decimal(n / 10);
        let d = decimal(n);
        assert(d.drop_last() =~= decimal(n / 10));
        assert(d.last() == digit_char(n % 10));
        assert(n == (n / 10) * 10 + n % 10);
        assert forall|i: int| 0 <= i < d.len() implies is_digit(#[trigger] d[i]) by {
            if i < d.len() - 1 {
                assert(d[i] == decimal(n / 10)[i]);
            }
        }
    } else {
        let d = decimal(n);
        assert(d.drop_last() =~= Seq::<char>::empty());
        assert(d.last() == digit_char(n));
        assert(digits_value(Seq::<char>::empty()) == 0);
    }
}

/// Trimming white space off both ends of a field leaves the text between them.
proof fn lemma_trim_padded(p: Seq<char>, t: Seq<char>, q: Seq<char>)
    requires
        all_white(p),
        all_white(q),
        t.len() > 0,
        !is_white(t[0]),
        !is_white(t.last()),
    ensures
        trim(p + t + q) == t,
{
    let s = p + t + q;
    assert forall|i: int| 0 <= i < p.len() implies is_white(#[trigger] s[i]) by {
        assert(s[i] == p[i]);
    }
    assert(s[p.len() as int] == t[0]);
    lemma_trim_start(s, p.len() as int);
    let r = s.subrange(p.len() as int, s.len() as int);
    assert(r =~= t + q);
    assert forall|i: int| t.len() <= i < r.len() implies is_white(#[trigger] r[i]) by {
        assert(r[i] == q[i - t.len()]);
    }
    assert(r[t.len() - 1] == t.last());
    lemma_trim_end(r, t.len() as int);
    assert(r.subrange(0, t.len() as int) =~= t);
}

/// A field made of white space, the decimal digits of `n`, and white space
/// reads as `n`.
proof fn lemma_field_of_decimal(p: Seq<char>, n: u32, q: Seq<char>)
    requires
        all_white(p),
        all_white(q),
    ensures
        field_value(p + decimal(n as nat) + q) == Some(n),
{
    let t = decimal(n as nat);
    lemma_decimal(n as nat);
    assert(is_digit(t[0]));
    assert(is_digit(t[t.len() - 1]));
    lemma_trim_padded(p, t, q);
}

proof fn lemma_separator_count_concat(a: Seq<char>, b: Seq<char>)
    ensures
        separator_count(a + b) == separator_count(a) + separator_count(b),
    decreases b.len(),
{
    if b.len() == 0 {
        assert(a + b =~= a);
    } else {
        lemma_separator_count_concat(a, b.drop_last());
        assert((a + b).drop_last() =~= a + b.drop_last());
    }
}

proof fn lemma_no_separator(s: Seq<char>)
    requires
        forall|i: int| 0 <= i < s.len() ==> #[trigger] s[i] != 'x',
    ensures
        separator_count(s) == 0,
    decreases s.len(),
{
    if s.len() > 0 {
        let t = s.drop_last();
        assert forall|i: int| 0 <= i < t.len() implies #[trigger] t[i] != 'x' by {
            assert(t[i] == s[i]);
        }
        lemma_no_separator(t);
    }
}

/// A field of white space around decimal digits holds no separator.
proof fn lemma_field_has_no_separator(p: Seq<char>, n: nat, q: Seq<char>)
    requires
        all_white(p),
        all_white(q),
    ensures
        separator_count(p + decimal(n) + q) == 0,
{
    let f = p + decimal(n) + q;
    lemma_decimal(n);
    assert forall|i: int| 0 <= i < f.len() implies #[trigger] f[i] != 'x' by {
        if i < p.len() {
            assert(f[i] == p[i]);
        } else if i < p.len() + decimal(n).len() {
            assert(f[i] == decimal(n)[i - p.len()]);
        } else {
            assert(f[i] == q[i - p.len() - decimal(n).len()]);
        }
    }
    lemma_no_separator(f);
}

/// Any positive height and width, written in decimal with optional white
/// space around each number, read back as exactly that height and width.
pub proof fn lemma_resolution_round_trip(
    height: u32,
    width: u32,
    p1: Seq<char>,
    p2: Seq<char>,
    p3: Seq<char>,
    p4: Seq<char>,
)
    requires
        height > 0,
        width > 0,
        all_white(p1),
        all_white(p2),
        all_white(p3),
        all_white(p4),
    ensures
        resolution_of(
            p1 + decimal(height as nat) + p2 + seq!['x'] + p3 + decimal(width as nat) + p4,
        ) == Ok::<(u32, u32), ResolutionError>((height, width)),
{
    let hf = p1 + decimal(height as nat) + p2;
    let wf = p3 + decimal(width as nat) + p4;
    let s = p1 + decimal(height as nat) + p2 + seq!['x'] + p3 + decimal(width as nat) + p4;
    assert(s =~= hf + seq!['x'] + wf);
    lemma_field_has_no_separator(p1, height as nat, p2);
    lemma_field_has_no_separator(p3, width as nat, p4);
    lemma_separator_count_concat(hf, seq!['x']);
    lemma_separator_count_concat(hf + seq!['x'], wf);
    let sep = seq!['x'];
    assert(sep.len() == 1 && sep.last() == 'x');
    assert(sep.drop_last() =~= Seq::<char>::empty());
    assert(separator_count(Seq::<char>::empty()) == 0);
    assert(separator_count(sep) == 1);
    let k0 = hf.len() as int;
    assert(s[k0] == 'x');
    let k = choose|k: int| 0 <= k < s.len() && s[k] == 'x';
    lemma_single_separator(s, k0, k);
    assert(s.subrange(0, k) =~= hf);
    assert(s.subrange(k + 1, s.len() as int) =~= wf);
    lemma_field_of_decimal(p1, height, p2);
    lemma_field_of_decimal(p3, width, p4);
}

} // verus!
