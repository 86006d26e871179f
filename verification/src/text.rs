use vstd::prelude::*;

verus! {

// ---------------------------------------------------------------------------
// Conversions between strings and character vectors
// ---------------------------------------------------------------------------

/// The characters of `s`, in order (`str::chars` collected into a vector).
#[verifier::external_body]
pub(crate) fn chars_of(s: &str) -> (v: Vec<char>)
    ensures
        v@ == s@,
{
    s.chars().collect()
}

/// The string made of the characters of `v` (collected from `slice::iter`).
#[verifier::external_body]
pub(crate) fn string_of(v: &Vec<char>) -> (s: String)
    ensures
        s@ == v@,
{
    v.iter().collect()
}

/// What `str::to_lowercase` returns for a string: every character replaced by
/// its Unicode lowercase mapping (with the context rules for final sigma).
pub uninterp spec fn lowercase(s: Seq<char>) -> Seq<char>;

/// `str::to_lowercase`; the result is a function of the characters alone.
#[verifier::external_body]
pub(crate) fn to_lowercase(s: &str) -> (r: String)
    ensures
        r@ == lowercase(s@),
{
    s.to_lowercase()
}

/// `n` is a Unicode scalar value: a code point outside the surrogate range.
pub open spec fn scalar(n: u32) -> bool {
    n < 0xD800 || (0xE000 <= n && n <= 0x10FFFF)
}

/// `char::from_u32`: the character with code point `n` when `n` is a Unicode
/// scalar value, `None` otherwise.
#[verifier::external_body]
pub(crate) fn char_from_u32(n: u32) -> (r: Option<char>)
    ensures
        r is Some <==> scalar(n),
        r matches Some(c) ==> c as u32 == n,
{
    char::from_u32(n)
}

/// The Unicode character name of `c` as `unicode_names2::name` gives it, if `c`
/// has one.
pub uninterp spec fn char_name(c: char) -> Option<Seq<char>>;

/// `unicode_names2::name`, with the name rendered through its `Display`.
#[verifier::external_body]
pub(crate) fn unicode_name(c: char) -> (r: Option<String>)
    ensures
        match r {
            Some(s) => char_name(c) == Some(s@),
            None => char_name(c) is None,
        },
{
    match unicode_names2::name(c) {
        Some(n) => Some(n.to_string()),
        None => None,
    }
}

/// The string views of a list of strings.
pub open spec fn views(v: Seq<String>) -> Seq<Seq<char>> {
    v.map_values(|s: String| s@)
}

pub proof fn lemma_views_push(o: Seq<String>, c: String)
    ensures
        views(o.push(c)) == views(o).push(c@),
{
    assert(views(o.push(c)) =~= views(o).push(c@));
}

pub proof fn lemma_views_insert(o: Seq<String>, i: int, c: String)
    requires
        0 <= i <= o.len(),
    ensures
        views(o.insert(i, c)) == views(o).insert(i, c@),
{
    assert(views(o.insert(i, c)) =~= views(o).insert(i, c@));
}

/// An owned copy of `s`.
pub fn owned(s: &str) -> (r: String)
    ensures
        r@ == s@,
{
    string_of(&chars_of(s))
}

/// A literal as a character vector.
pub(crate) fn lit(s: &str) -> (v: Vec<char>)
    ensures
        v@ == s@,
{
    chars_of(s)
}

// ---------------------------------------------------------------------------
// Whitespace and trimming
// ---------------------------------------------------------------------------

/// The Unicode `White_Space` property, which `char::is_whitespace` tests.
pub open spec fn is_ws(c: char) -> bool {
    let n = c as u32;
    (0x09 <= n && n <= 0x0D) || n == 0x20 || n == 0x85 || n == 0xA0 || n == 0x1680 || (0x2000 <= n
        && n <= 0x200A) || n == 0x2028 || n == 0x2029 || n == 0x202F || n == 0x205F || n == 0x3000
}

pub fn is_whitespace(c: char) -> (b: bool)
    ensures
        b == is_ws(c),
{
    let n = c as u32;
    (0x09 <= n && n <= 0x0D) || n == 0x20 || n == 0x85 || n == 0xA0 || n == 0x1680 || (0x2000 <= n
        && n <= 0x200A) || n == 0x2028 || n == 0x2029 || n == 0x202F || n == 0x205F || n == 0x3000
}

/// `s` without its leading whitespace.
pub open spec fn trim_start_seq(s: Seq<char>) -> Seq<char>
    decreases s.len(),
{
    if s.len() > 0 && is_ws(s[0]) {
        trim_start_seq(s.drop_first())
    } else {
        s
    }
}

/// `s` without its trailing whitespace.
pub open spec fn trim_end_seq(s: Seq<char>) -> Seq<char>
    decreases s.len(),
{
    if s.len() > 0 && is_ws(s.last()) {
        trim_end_seq(s.drop_last())
    } else {
        s
    }
}

/// `s` without leading and trailing whitespace (`str::trim`).
pub open spec fn trim_seq(s: Seq<char>) -> Seq<char> {
    trim_end_seq(trim_start_seq(s))
}

proof fn lemma_trim_start_skip(s: Seq<char>, i: int)
    requires
        0 <= i <= s.len(),
        forall|j: int| 0 <= j < i ==> is_ws(#[trigger] s[j]),
    ensures
        trim_start_seq(s) == trim_start_seq(s.subrange(i, s.len() as int)),
    decreases i,
{
    if i > 0 {
        assert(is_ws(s[0]));
        let t = s.drop_first();
        assert forall|j: int| 0 <= j < i - 1 implies is_ws(#[trigger] t[j]) by {
            assert(t[j] == s[j + 1]);
        }
        lemma_trim_start_skip(t, i - 1);
        assert(t.subrange(i - 1, t.len() as int) =~= s.subrange(i, s.len() as int));
    } else {
        assert(s.subrange(0, s.len() as int) =~= s);
    }
}

proof fn lemma_trim_end_skip(s: Seq<char>, e: int)
    requires
        0 <= e <= s.len(),
        forall|j: int| e <= j < s.len() ==> is_ws(#[trigger] s[j]),
    ensures
        trim_end_seq(s) == trim_end_seq(s.subrange(0, e)),
    decreases s.len() - e,
{
    if e < s.len() {
        assert(is_ws(s.last()));
        let t = s.drop_last();
        lemma_trim_end_skip(t, e);
        assert(t.subrange(0, e) =~= s.subrange(0, e));
    } else {
        assert(s.subrange(0, e) =~= s);
    }
}

/// `str::trim_start` on a character vector.
pub fn trim_start(s: &Vec<char>) -> (t: Vec<char>)
    ensures
        t@ == trim_start_seq(s@),
{
    let mut i: usize = 0;
    while i < s.len() && is_whitespace(s[i])
        invariant
            i <= s@.len(),
            forall|j: int| 0 <= j < i ==> is_ws(#[trigger] s@[j]),
        decreases s@.len() - i,
    {
        i = i + 1;
    }
    let t = slice_vec(s, i, s.len());
    proof {
        lemma_trim_start_skip(s@, i as int);
        let u = s@.subrange(i as int, s@.len() as int);
        if u.len() > 0 {
            assert(u[0] == s@[i as int]);
        }
    }
    t
}

/// `str::trim` on a character vector.
pub fn trim(s: &Vec<char>) -> (t: Vec<char>)
    ensures
        t@ == trim_seq(s@),
{
    let a = trim_start(s);
    let mut e: usize = a.len();
    while e > 0 && is_whitespace(a[e - 1])
        invariant
            e <= a@.len(),
            forall|j: int| e <= j < a@.len() ==> is_ws(#[trigger] a@[j]),
        decreases e,
    {
        e = e - 1;
    }
    let t = slice_vec(&a, 0, e);
    proof {
        lemma_trim_end_skip(a@, e as int);
        let u = a@.subrange(0, e as int);
        if u.len() > 0 {
            assert(u.last() == a@[e - 1]);
        }
    }
    t
}

/// The characters `s[from..to]`.
pub fn slice_vec(s: &Vec<char>, from: usize, to: usize) -> (t: Vec<char>)
    requires
        from <= to <= s@.len(),
    ensures
        t@ == s@.subrange(from as int, to as int),
{
    let mut t: Vec<char> = Vec::new();
    let mut i = from;
    while i < to
        invariant
            from <= i <= to,
            to <= s@.len(),
            t@ == s@.subrange(from as int, i as int),
        decreases to - i,
    {
        t.push(s[i]);
        proof {
            assert(t@ =~= s@.subrange(from as int, i + 1));
        }
        i = i + 1;
    }
    t
}

// ---------------------------------------------------------------------------
// Comparing and searching
// ---------------------------------------------------------------------------

pub fn chars_eq(a: &Vec<char>, b: &Vec<char>) -> (r: bool)
    ensures
        r == (a@ == b@),
{
    if a.len() != b.len() {
        return false;
    }
    let mut i: usize = 0;
    while i < a.len()
        invariant
            a@.len() == b@.len(),
            i <= a@.len(),
            forall|j: int| 0 <= j < i ==> a@[j] == b@[j],
        decreases a@.len() - i,
    {
        if a[i] != b[i] {
            return false;
        }
        i = i + 1;
    }
    assert(a@ =~= b@);
    true
}

/// `p` occurs in `s` at position `i`.
pub open spec fn occurs_at(s: Seq<char>, p: Seq<char>, i: int) -> bool {
    0 <= i && i + p.len() <= s.len() && s.subrange(i, i + p.len()) == p
}

/// `p` is a substring of `s` (`str::contains` with a string pattern).
pub open spec fn contains_seq(s: Seq<char>, p: Seq<char>) -> bool {
    exists|i: int| occurs_at(s, p, i)
}

/// `s` begins with `p` (`str::starts_with`).
pub open spec fn starts_with_seq(s: Seq<char>, p: Seq<char>) -> bool {
    occurs_at(s, p, 0)
}

pub fn matches_at(s: &Vec<char>, p: &Vec<char>, i: usize) -> (r: bool)
    ensures
        r == occurs_at(s@, p@, i as int),
{
    let n = s.len();
    if i > n || n - i < p.len() {
        return false;
    }
    let mut j: usize = 0;
    while j < p.len()
        invariant
            n == s@.len(),
            i + p@.len() <= n,
            j <= p@.len(),
            forall|k: int| 0 <= k < j ==> s@[i + k] == p@[k],
        decreases p@.len() - j,
    {
        if s[i + j] != p[j] {
            assert(s@.subrange(i as int, i + p@.len())[j as int] != p@[j as int]);
            return false;
        }
        j = j + 1;
    }
    assert(s@.subrange(i as int, i + p@.len()) =~= p@);
    true
}

pub fn starts_with(s: &Vec<char>, p: &Vec<char>) -> (r: bool)
    ensures
        r == starts_with_seq(s@, p@),
{
    matches_at(s, p, 0)
}

/// The first position at which `p` occurs in `s`.
pub open spec fn find_seq(s: Seq<char>, p: Seq<char>) -> Option<int> {
    if contains_seq(s, p) {
        Some(
            choose|i: int|
                occurs_at(s, p, i) && forall|k: int| 0 <= k < i ==> !#[trigger] occurs_at(s, p, k),
        )
    } else {
        None
    }
}

/// A first occurrence is the one `find_seq` names.
pub proof fn lemma_find_seq(s: Seq<char>, p: Seq<char>, i: int)
    requires
        occurs_at(s, p, i),
        forall|k: int| 0 <= k < i ==> !#[trigger] occurs_at(s, p, k),
    ensures
        find_seq(s, p) == Some(i),
{
    assert(contains_seq(s, p));
    let j = choose|j: int|
        occurs_at(s, p, j) && forall|k: int| 0 <= k < j ==> !#[trigger] occurs_at(s, p, k);
    if j < i {
        assert(!occurs_at(s, p, j));
    } else if j > i {
        assert(!occurs_at(s, p, i));
    }
}

/// The first position at which `p` occurs in `s` (`str::find`).
pub fn find(s: &Vec<char>, p: &Vec<char>) -> (r: Option<usize>)
    ensures
        match r {
            Some(i) => occurs_at(s@, p@, i as int) && forall|k: int|
                0 <= k < i ==> !#[trigger] occurs_at(s@, p@, k),
            None => !contains_seq(s@, p@),
        },
        r matches Some(i) ==> find_seq(s@, p@) == Some(i as int),
        r is None ==> find_seq(s@, p@) is None,
{
    if p.len() > s.len() {
        return None;
    }
    let lim = s.len() - p.len();
    let mut i: usize = 0;
    loop
        invariant
            p@.len() <= s@.len(),
            lim == s@.len() - p@.len(),
            i <= lim,
            forall|k: int| 0 <= k < i ==> !#[trigger] occurs_at(s@, p@, k),
        decreases lim - i,
    {
        if matches_at(s, p, i) {
            proof {
                lemma_find_seq(s@, p@, i as int);
            }
            return Some(i);
        }
        if i == lim {
            assert forall|k: int| !occurs_at(s@, p@, k) by {
                if 0 <= k <= lim {
                    assert(k < i || k == i);
                }
            }
            return None;
        }
        i = i + 1;
    }
}

pub fn contains(s: &Vec<char>, p: &Vec<char>) -> (r: bool)
    ensures
        r == contains_seq(s@, p@),
{
    find(s, p).is_some()
}

/// `str::strip_prefix`: the rest of `s` when it begins with `p`.
pub fn strip_prefix(s: &Vec<char>, p: &Vec<char>) -> (r: Option<Vec<char>>)
    ensures
        match r {
            Some(t) => starts_with_seq(s@, p@) && t@ == s@.subrange(p@.len() as int, s@.len() as int),
            None => !starts_with_seq(s@, p@),
        },
{
    if starts_with(s, p) {
        Some(slice_vec(s, p.len(), s.len()))
    } else {
        None
    }
}

// ---------------------------------------------------------------------------
// Number formatting
// ---------------------------------------------------------------------------

pub open spec fn digit_char(d: int, upper: bool) -> char {
    if d < 10 {
        (48 + d) as char
    } else if upper {
        (65 + (d - 10)) as char
    } else {
        (97 + (d - 10)) as char
    }
}

/// The digits of `n` in base `base` (2..16), most significant first, without
/// leading zeros (`"0"` for zero).
pub open spec fn digits_seq(n: nat, base: nat, upper: bool) -> Seq<char>
    decreases n,
{
    if base < 2 || n < base {
        seq![digit_char(n as int, upper)]
    } else {
        proof {
            vstd::arithmetic::div_mod::lemma_div_decreases(n as int, base as int);
        }
        digits_seq(n / base, base, upper).push(digit_char((n % base) as int, upper))
    }
}

/// `s` padded on the left with `'0'` to at least `width` characters, as the
/// `{:0width}` formats do.
pub open spec fn zero_pad(s: Seq<char>, width: nat) -> Seq<char> {
    if s.len() >= width {
        s
    } else {
        Seq::new((width - s.len()) as nat, |i: int| '0') + s
    }
}

/// Decimal form of an unsigned number (`{}`).
pub open spec fn dec_seq(n: nat) -> Seq<char> {
    digits_seq(n, 10, false)
}

/// Decimal form of a signed number (`{}`).
pub open spec fn int_seq(n: int) -> Seq<char> {
    if n < 0 {
        seq!['-'] + dec_seq((-n) as nat)
    } else {
        dec_seq(n as nat)
    }
}

/// Hexadecimal form of `n` padded with zeros to `width` digits (`{:04X}` and
/// similar).
pub open spec fn hex_seq(n: nat, upper: bool, width: nat) -> Seq<char> {
    zero_pad(digits_seq(n, 16, upper), width)
}

fn digit_of(d: u64, upper: bool) -> (c: char)
    requires
        d < 16,
    ensures
        c == digit_char(d as int, upper),
{
    if d < 10 {
        (48u8 + d as u8) as char
    } else if upper {
        (65u8 + (d - 10) as u8) as char
    } else {
        (97u8 + (d - 10) as u8) as char
    }
}

/// The digits of `n` in base `base`, most significant first.
pub fn digits(n: u64, base: u64, upper: bool) -> (s: Vec<char>)
    requires
        2 <= base <= 16,
    ensures
        s@ == digits_seq(n as nat, base as nat, upper),
    decreases n,
{
    if n < base {
        let mut v = Vec::new();
        v.push(digit_of(n, upper));
        v
    } else {
        proof {
            vstd::arithmetic::div_mod::lemma_div_decreases(n as int, base as int);
        }
        let mut v = digits(n / base, base, upper);
        v.push(digit_of(n % base, upper));
        v
    }
}

pub fn pad_zeros(s: Vec<char>, width: usize) -> (t: Vec<char>)
    ensures
        t@ == zero_pad(s@, width as nat),
{
    if s.len() >= width {
        return s;
    }
    let mut t: Vec<char> = Vec::new();
    let k = width - s.len();
    let mut i: usize = 0;
    while i < k
        invariant
            i <= k,
            t@ == Seq::new(i as nat, |j: int| '0'),
        decreases k - i,
    {
        t.push('0');
        proof {
            assert(t@ =~= Seq::new((i + 1) as nat, |j: int| '0'));
        }
        i = i + 1;
    }
    let mut j: usize = 0;
    while j < s.len()
        invariant
            j <= s@.len(),
            t@ == Seq::new(k as nat, |j: int| '0') + s@.subrange(0, j as int),
        decreases s@.len() - j,
    {
        t.push(s[j]);
        proof {
            assert(t@ =~= Seq::new(k as nat, |j: int| '0') + s@.subrange(0, j + 1));
        }
        j = j + 1;
    }
    assert(s@.subrange(0, s@.len() as int) =~= s@);
    t
}

/// `format!("{}", n)` for an unsigned number.
pub fn dec(n: u64) -> (s: Vec<char>)
    ensures
        s@ == dec_seq(n as nat),
{
    digits(n, 10, false)
}

/// `format!("{}", n)` for a signed number.
pub fn dec_signed(n: i64) -> (s: Vec<char>)
    ensures
        s@ == int_seq(n as int),
{
    if n < 0 {
        let m: u64 = if n == i64::MIN {
            9223372036854775808u64
        } else {
            (-n) as u64
        };
        let mut s: Vec<char> = Vec::new();
        s.push('-');
        let d = dec(m);
        let r = concat(&s, &d);
        assert(s@ =~= seq!['-']);
        r
    } else {
        dec(n as u64)
    }
}

/// `format!("{:0width$X}", n)` (or lowercase `x`).
pub fn hex(n: u64, upper: bool, width: usize) -> (s: Vec<char>)
    ensures
        s@ == hex_seq(n as nat, upper, width as nat),
{
    pad_zeros(digits(n, 16, upper), width)
}

pub fn concat(a: &Vec<char>, b: &Vec<char>) -> (c: Vec<char>)
    ensures
        c@ == a@ + b@,
{
    let mut c: Vec<char> = Vec::new();
    let mut i: usize = 0;
    while i < a.len()
        invariant
            i <= a@.len(),
            c@ == a@.subrange(0, i as int),
        decreases a@.len() - i,
    {
        c.push(a[i]);
        proof {
            assert(c@ =~= a@.subrange(0, i + 1));
        }
        i = i + 1;
    }
    let mut j: usize = 0;
    while j < b.len()
        invariant
            j <= b@.len(),
            c@ == a@ + b@.subrange(0, j as int),
        decreases b@.len() - j,
    {
        c.push(b[j]);
        proof {
            assert(c@ =~= a@ + b@.subrange(0, j + 1));
        }
        j = j + 1;
    }
    assert(a@.subrange(0, a@.len() as int) =~= a@);
    assert(b@.subrange(0, b@.len() as int) =~= b@);
    c
}

/// Appends `b` to `a`.
pub fn append(a: &mut Vec<char>, b: &Vec<char>)
    ensures
        final(a)@ == old(a)@ + b@,
{
    let mut j: usize = 0;
    while j < b.len()
        invariant
            j <= b@.len(),
            a@ == old(a)@ + b@.subrange(0, j as int),
        decreases b@.len() - j,
    {
        a.push(b[j]);
        proof {
            assert(a@ =~= old(a)@ + b@.subrange(0, j + 1));
        }
        j = j + 1;
    }
    assert(b@.subrange(0, b@.len() as int) =~= b@);
}

// ---------------------------------------------------------------------------
// Number parsing
// ---------------------------------------------------------------------------

/// The value of a digit character in base `radix` (10 or 16, either case).
pub open spec fn digit_value(c: char, radix: nat) -> Option<nat> {
    let n = c as u32;
    if 0x30 <= n && n <= 0x39 && (n - 0x30) < radix {
        Some((n - 0x30) as nat)
    } else if radix > 10 && 0x61 <= n && n < 0x61 + radix - 10 {
        Some((n - 0x61 + 10) as nat)
    } else if radix > 10 && 0x41 <= n && n < 0x41 + radix - 10 {
        Some((n - 0x41 + 10) as nat)
    } else {
        None
    }
}

/// The value of the digit string `s` in base `radix`, or `None` when a
/// character is not a digit.  The empty string has the value 0.
pub open spec fn digits_value(s: Seq<char>, radix: nat) -> Option<nat>
    decreases s.len(),
{
    if s.len() == 0 {
        Some(0)
    } else {
        match (digits_value(s.drop_last(), radix), digit_value(s.last(), radix)) {
            (Some(v), Some(d)) => Some(v * radix + d),
            _ => None,
        }
    }
}

/// The digits after an optional leading `'+'`, as the unsigned `from_str`
/// and `from_str_radix` of std accept them.
pub open spec fn unsigned_body(s: Seq<char>) -> Seq<char> {
    if s.len() > 0 && s[0] == '+' {
        s.drop_first()
    } else {
        s
    }
}

/// What `u32::from_str_radix(s, radix)` (and `s.parse::<u32>()` for radix 10)
/// accepts: an optional `'+'` followed by at least one digit, with a value that
/// fits.
pub open spec fn parse_unsigned_spec(s: Seq<char>, radix: nat, max: nat) -> Option<nat> {
    let body = unsigned_body(s);
    if body.len() == 0 {
        None
    } else {
        match digits_value(body, radix) {
            Some(v) => if v <= max {
                Some(v)
            } else {
                None
            },
            None => None,
        }
    }
}

/// What `i32::from_str` accepts: an optional sign followed by at least one
/// decimal digit, with a value in range.
pub open spec fn parse_i32_spec(s: Seq<char>) -> Option<int> {
    if s.len() > 0 && s[0] == '-' {
        let body = s.drop_first();
        if body.len() == 0 {
            None
        } else {
            match digits_value(body, 10) {
                Some(v) => if v <= 0x8000_0000 {
                    Some(-v)
                } else {
                    None
                },
                None => None,
            }
        }
    } else {
        match parse_unsigned_spec(s, 10, 0x7fff_ffff) {
            Some(v) => Some(v as int),
            None => None,
        }
    }
}

proof fn lemma_digits_value_mono(s: Seq<char>, radix: nat, v: nat)
    requires
        radix >= 1,
        s.len() > 0,
        digits_value(s, radix) == Some(v),
    ensures
        digits_value(s.drop_last(), radix) matches Some(u) && u <= v,
{
    let u = digits_value(s.drop_last(), radix)->0;
    assert(u * radix >= u) by (nonlinear_arith)
        requires
            radix >= 1,
    ;
}

/// Value of a digit string, failing as soon as it exceeds `max`.
fn digits_to_value(s: &Vec<char>, from: usize, radix: u64, max: u64) -> (r: Option<u64>)
    requires
        from <= s@.len(),
        radix == 10 || radix == 16,
        max <= u32::MAX,
    ensures
        match r {
            Some(v) => digits_value(s@.subrange(from as int, s@.len() as int), radix as nat) == Some(
                v as nat,
            ) && v <= max,
            None => !(digits_value(s@.subrange(from as int, s@.len() as int), radix as nat) matches Some(
                v,
            ) && v <= max),
        },
{
    let mut v: u64 = 0;
    let mut i = from;
    while i < s.len()
        invariant
            from <= i <= s@.len(),
            radix == 10 || radix == 16,
            max <= u32::MAX,
            v <= max,
            digits_value(s@.subrange(from as int, i as int), radix as nat) == Some(v as nat),
        decreases s@.len() - i,
    {
        let c = s[i];
        let n = c as u32;
        let d: u64 = if 0x30 <= n && n <= 0x39 && ((n - 0x30) as u64) < radix {
            (n - 0x30) as u64
        } else if radix > 10 && 0x61 <= n && (n as u64) < 0x61 + radix - 10 {
            (n - 0x61 + 10) as u64
        } else if radix > 10 && 0x41 <= n && (n as u64) < 0x41 + radix - 10 {
            (n - 0x41 + 10) as u64
        } else {
            proof {
                let t = s@.subrange(from as int, i + 1);
                assert(t.last() == c);
                assert(t.drop_last() =~= s@.subrange(from as int, i as int));
                assert(digits_value(t, radix as nat) is None);
                lemma_digits_none_extends(s@, from as int, i + 1, radix as nat);
            }
            return None;
        };
        let t = v * radix + d;
        proof {
            let tt = s@.subrange(from as int, i + 1);
            assert(tt.last() == c);
            assert(tt.drop_last() =~= s@.subrange(from as int, i as int));
        }
        if t > max {
            proof {
                lemma_digits_big_extends(s@, from as int, i + 1, radix as nat, max as nat);
            }
            return None;
        }
        v = t;
        i = i + 1;
    }
    Some(v)
}

proof fn lemma_digits_none_extends(s: Seq<char>, from: int, k: int, radix: nat)
    requires
        0 <= from <= k <= s.len(),
        digits_value(s.subrange(from, k), radix) is None,
    ensures
        digits_value(s.subrange(from, s.len() as int), radix) is None,
    decreases s.len() - k,
{
    if k < s.len() {
        let t = s.subrange(from, k + 1);
        assert(t.drop_last() =~= s.subrange(from, k));
        lemma_digits_none_extends(s, from, k + 1, radix);
    }
}

proof fn lemma_digits_big_extends(s: Seq<char>, from: int, k: int, radix: nat, max: nat)
    requires
        0 <= from <= k <= s.len(),
        radix >= 1,
        !(digits_value(s.subrange(from, k), radix) matches Some(v) && v <= max),
    ensures
        !(digits_value(s.subrange(from, s.len() as int), radix) matches Some(v) && v <= max),
    decreases s.len() - k,
{
    if k < s.len() {
        let t = s.subrange(from, k + 1);
        assert(t.drop_last() =~= s.subrange(from, k));
        if let Some(v) = digits_value(t, radix) {
            lemma_digits_value_mono(t, radix, v);
        }
        lemma_digits_big_extends(s, from, k + 1, radix, max);
    }
}

/// `s.parse::<usize>()`.
pub fn parse_usize(s: &Vec<char>) -> (r: Option<usize>)
    ensures
        match r {
            Some(v) => parse_unsigned_spec(s@, 10, usize::MAX as nat) == Some(v as nat),
            None => parse_unsigned_spec(s@, 10, usize::MAX as nat) is None,
        },
{
    let from: usize = if s.len() > 0 && s[0] == '+' {
        1
    } else {
        0
    };
    proof {
        assert(unsigned_body(s@) =~= s@.subrange(from as int, s@.len() as int));
    }
    if from == s.len() {
        return None;
    }
    let mut v: usize = 0;
    let mut i = from;
    while i < s.len()
        invariant
            from <= i <= s@.len(),
            from < s@.len(),
            unsigned_body(s@) == s@.subrange(from as int, s@.len() as int),
            digits_value(s@.subrange(from as int, i as int), 10) == Some(v as nat),
        decreases s@.len() - i,
    {
        let c = s[i];
        let n = c as u32;
        proof {
            let tt = s@.subrange(from as int, i + 1);
            assert(tt.last() == c);
            assert(tt.drop_last() =~= s@.subrange(from as int, i as int));
        }
        if !(0x30 <= n && n <= 0x39) {
            proof {
                lemma_digits_none_extends(s@, from as int, i + 1, 10);
            }
            return None;
        }
        let d = (n - 0x30) as usize;
        if v > (usize::MAX - d) / 10 {
            proof {
                assert(v * 10 + d > usize::MAX) by (nonlinear_arith)
                    requires
                        v > (usize::MAX - d) / 10,
                        d <= 9,
                ;
                lemma_digits_big_extends(s@, from as int, i + 1, 10, usize::MAX as nat);
            }
            return None;
        }
        proof {
            assert(v * 10 + d <= usize::MAX) by (nonlinear_arith)
                requires
                    v <= (usize::MAX - d) / 10,
                    d <= 9,
            ;
        }
        v = v * 10 + d;
        i = i + 1;
    }
    Some(v)
}

/// `u32::from_str_radix(s, radix)` for radix 10 or 16.
pub fn parse_u32_radix(s: &Vec<char>, radix: u32) -> (r: Option<u32>)
    requires
        radix == 10 || radix == 16,
    ensures
        match r {
            Some(v) => parse_unsigned_spec(s@, radix as nat, u32::MAX as nat) == Some(v as nat),
            None => parse_unsigned_spec(s@, radix as nat, u32::MAX as nat) is None,
        },
{
    let from: usize = if s.len() > 0 && s[0] == '+' {
        1
    } else {
        0
    };
    proof {
        assert(unsigned_body(s@) =~= s@.subrange(from as int, s@.len() as int));
    }
    if from == s.len() {
        return None;
    }
    match digits_to_value(s, from, radix as u64, u32::MAX as u64) {
        Some(v) => Some(v as u32),
        None => None,
    }
}

/// `s.parse::<u32>()`.
pub fn parse_u32(s: &Vec<char>) -> (r: Option<u32>)
    ensures
        match r {
            Some(v) => parse_unsigned_spec(s@, 10, u32::MAX as nat) == Some(v as nat),
            None => parse_unsigned_spec(s@, 10, u32::MAX as nat) is None,
        },
{
    parse_u32_radix(s, 10)
}

/// `s.parse::<i32>()`.
pub fn parse_i32(s: &Vec<char>) -> (r: Option<i32>)
    ensures
        match r {
            Some(v) => parse_i32_spec(s@) == Some(v as int),
            None => parse_i32_spec(s@) is None,
        },
{
    if s.len() > 0 && s[0] == '-' {
        proof {
            assert(s@.drop_first() =~= s@.subrange(1, s@.len() as int));
        }
        if s.len() == 1 {
            return None;
        }
        match digits_to_value(s, 1, 10, 0x8000_0000) {
            Some(v) => {
                if v == 0x8000_0000 {
                    Some(i32::MIN)
                } else {
                    Some(-(v as i32))
                }
            },
            None => None,
        }
    } else {
        let from: usize = if s.len() > 0 && s[0] == '+' {
            1
        } else {
            0
        };
        proof {
            assert(unsigned_body(s@) =~= s@.subrange(from as int, s@.len() as int));
        }
        if from == s.len() {
            return None;
        }
        match digits_to_value(s, from, 10, 0x7fff_ffff) {
            Some(v) => Some(v as i32),
            None => None,
        }
    }
}

// ---------------------------------------------------------------------------
// Splitting and joining
// ---------------------------------------------------------------------------

/// The pieces of `s` between occurrences of `sep` (`str::split` with a char):
/// always at least one piece, empty pieces kept.
pub open spec fn split_seq(s: Seq<char>, sep: char) -> Seq<Seq<char>>
    decreases s.len(),
{
    if s.len() == 0 {
        seq![seq![]]
    } else {
        let rest = split_seq(s.drop_last(), sep);
        if s.last() == sep {
            rest.push(seq![])
        } else {
            rest.update(rest.len() - 1, rest.last().push(s.last()))
        }
    }
}

proof fn lemma_split_nonempty(s: Seq<char>, sep: char)
    ensures
        split_seq(s, sep).len() >= 1,
    decreases s.len(),
{
    if s.len() > 0 {
        lemma_split_nonempty(s.drop_last(), sep);
    }
}

/// `str::split(sep)` on a character vector.
pub fn split(s: &Vec<char>, sep: char) -> (parts: Vec<Vec<char>>)
    ensures
        parts@.len() == split_seq(s@, sep).len(),
        forall|k: int| 0 <= k < parts@.len() ==> #[trigger] parts@[k]@ == split_seq(s@, sep)[k],
{
    let mut parts: Vec<Vec<char>> = Vec::new();
    let mut cur: Vec<char> = Vec::new();
    let mut i: usize = 0;
    while i < s.len()
        invariant
            i <= s@.len(),
            parts@.len() + 1 == split_seq(s@.subrange(0, i as int), sep).len(),
            forall|k: int| 0 <= k < parts@.len() ==> #[trigger] parts@[k]@ == split_seq(
                s@.subrange(0, i as int),
                sep,
            )[k],
            cur@ == split_seq(s@.subrange(0, i as int), sep).last(),
        decreases s@.len() - i,
    {
        let ghost prev = s@.subrange(0, i as int);
        proof {
            let t = s@.subrange(0, i + 1);
            assert(t.drop_last() =~= prev);
            assert(t.last() == s@[i as int]);
            lemma_split_nonempty(prev, sep);
        }
        if s[i] == sep {
            parts.push(cur);
            cur = Vec::new();
        } else {
            cur.push(s[i]);
        }
        i = i + 1;
    }
    parts.push(cur);
    proof {
        assert(s@.subrange(0, s@.len() as int) =~= s@);
        lemma_split_nonempty(s@, sep);
    }
    parts
}

/// The lines of `s` as `str::lines` gives them: the pieces between `'\n'`s,
/// without an empty piece after a final `'\n'`, and each piece that ended with
/// `'\n'` also without one `'\r'` before it.
pub open spec fn lines_seq(s: Seq<char>) -> Seq<Seq<char>> {
    let parts = split_seq(s, '\n');
    if s.len() == 0 {
        seq![]
    } else if s.last() == '\n' {
        parts.drop_last().map_values(|line: Seq<char>| strip_cr(line))
    } else {
        parts.drop_last().map_values(|line: Seq<char>| strip_cr(line)).push(parts.last())
    }
}

pub open spec fn strip_cr(line: Seq<char>) -> Seq<char> {
    if line.len() > 0 && line.last() == '\r' {
        line.drop_last()
    } else {
        line
    }
}


/// The lines of a text as `str::lines` gives them.
pub fn lines(s: &Vec<char>) -> (out: Vec<Vec<char>>)
    ensures
        out@.len() == lines_seq(s@).len(),
        forall|k: int| 0 <= k < out@.len() ==> #[trigger] out@[k]@ == lines_seq(s@)[k],
{
    let parts = split(s, '\n');
    let ghost ps = split_seq(s@, '\n');
    proof {
        lemma_split_nonempty(s@, '\n');
    }
    let mut out: Vec<Vec<char>> = Vec::new();
    if s.len() == 0 {
        return out;
    }
    let n = parts.len() - 1;
    let mut i: usize = 0;
    while i < n
        invariant
            n + 1 == parts@.len(),
            parts@.len() == ps.len(),
            forall|k: int| 0 <= k < parts@.len() ==> #[trigger] parts@[k]@ == ps[k],
            i <= n,
            out@.len() == i,
            forall|k: int| 0 <= k < i ==> #[trigger] out@[k]@ == strip_cr(ps[k]),
        decreases n - i,
    {
        let p = &parts[i];
        let mut end = p.len();
        if end > 0 && p[end - 1] == '\r' {
            end = end - 1;
        }
        let line = slice_vec(p, 0, end);
        proof {
            assert(p@ == ps[i as int]);
            if p@.len() > 0 && p@.last() == '\r' {
                assert(line@ =~= p@.drop_last());
            } else {
                assert(line@ =~= p@);
            }
        }
        out.push(line);
        i = i + 1;
    }
    if s[s.len() - 1] != '\n' {
        let last = slice_vec(&parts[n], 0, parts[n].len());
        proof {
            assert(last@ =~= parts@[n as int]@);
        }
        out.push(last);
    }
    out
}

/// The lines joined with newlines.
pub open spec fn joined(ls: Seq<Seq<char>>) -> Seq<char>
    decreases ls.len(),
{
    if ls.len() == 0 {
        seq![]
    } else if ls.len() == 1 {
        ls[0]
    } else {
        joined(ls.drop_last()) + seq!['\n'] + ls.last()
    }
}

/// The lines joined with `\n` (`[String]::join`).
pub fn join_lines(lines: &Vec<String>) -> (out: Vec<char>)
    ensures
        out@ == joined(views(lines@)),
{
    let mut out: Vec<char> = Vec::new();
    let mut i: usize = 0;
    while i < lines.len()
        invariant
            i <= lines@.len(),
            out@ == joined(views(lines@).subrange(0, i as int)),
        decreases lines@.len() - i,
    {
        if i > 0 {
            out.push('\n');
        }
        append(&mut out, &chars_of(lines[i].as_str()));
        proof {
            let v = views(lines@).subrange(0, i + 1);
            assert(v.drop_last() =~= views(lines@).subrange(0, i as int));
            if i == 0 {
                assert(out@ =~= v[0]);
            } else {
                assert(out@ =~= joined(v.drop_last()) + seq!['\n'] + v.last());
            }
        }
        i = i + 1;
    }
    proof {
        assert(views(lines@).subrange(0, lines@.len() as int) =~= views(lines@));
    }
    out
}


proof fn lemma_joined_extend_last(r: Seq<Seq<char>>, c: char)
    requires
        r.len() >= 1,
    ensures
        joined(r.update(r.len() - 1, r.last().push(c))) == joined(r).push(c),
{
    let u = r.update(r.len() - 1, r.last().push(c));
    if r.len() == 1 {
        assert(u[0] == r[0].push(c));
    } else {
        assert(u.drop_last() =~= r.drop_last());
        assert(joined(u) =~= joined(r).push(c));
    }
}

/// Joining the parts of a split with the separator gives the text back.
pub proof fn lemma_joined_split(t: Seq<char>)
    ensures
        joined(split_seq(t, '\n')) == t,
    decreases t.len(),
{
    if t.len() == 0 {
        assert(joined(seq![seq![]]) == Seq::<char>::empty());
    } else {
        let d = t.drop_last();
        lemma_joined_split(d);
        lemma_split_nonempty(d, '\n');
        let rest = split_seq(d, '\n');
        if t.last() == '\n' {
            assert(rest.push(seq![]).drop_last() =~= rest);
            assert(joined(rest.push(seq![])) =~= d + seq!['\n']);
        } else {
            lemma_joined_extend_last(rest, t.last());
        }
        assert(t =~= d.push(t.last()));
    }
}

/// A text without `c` splits into parts without `c`.
pub proof fn lemma_split_without(t: Seq<char>, c: char)
    requires
        forall|i: int| 0 <= i < t.len() ==> t[i] != c,
    ensures
        forall|k: int, i: int|
            0 <= k < split_seq(t, '\n').len() && 0 <= i < split_seq(t, '\n')[k].len() ==> #[trigger] split_seq(
                t,
                '\n',
            )[k][i] != c,
    decreases t.len(),
{
    if t.len() > 0 {
        let d = t.drop_last();
        lemma_split_without(d, c);
        lemma_split_nonempty(d, '\n');
        let rest = split_seq(d, '\n');
        let parts = split_seq(t, '\n');
        assert forall|k: int, i: int| 0 <= k < parts.len() && 0 <= i < parts[k].len() implies #[trigger] parts[k][i]
            != c by {
            if t.last() != '\n' && k == rest.len() - 1 {
                if i < rest[k].len() {
                    assert(parts[k][i] == rest[k][i]);
                } else {
                    assert(parts[k][i] == t.last());
                }
            } else if k < rest.len() {
                assert(parts[k] == rest[k]);
            }
        }
    }
}

/// The number of occurrences of `c` in `s`.
pub open spec fn count_char(s: Seq<char>, c: char) -> nat
    decreases s.len(),
{
    if s.len() == 0 {
        0
    } else {
        count_char(s.drop_last(), c) + if s.last() == c { 1nat } else { 0nat }
    }
}

/// The pieces joined with the separator `sep` between them.
pub open spec fn join_with(ls: Seq<Seq<char>>, sep: char) -> Seq<char>
    decreases ls.len(),
{
    if ls.len() == 0 {
        seq![]
    } else if ls.len() == 1 {
        ls[0]
    } else {
        join_with(ls.drop_last(), sep) + seq![sep] + ls.last()
    }
}

proof fn lemma_join_with_extend_last(r: Seq<Seq<char>>, sep: char, c: char)
    requires
        r.len() >= 1,
    ensures
        join_with(r.update(r.len() - 1, r.last().push(c)), sep) == join_with(r, sep).push(c),
{
    let u = r.update(r.len() - 1, r.last().push(c));
    if r.len() == 1 {
        assert(u[0] == r[0].push(c));
    } else {
        assert(u.drop_last() =~= r.drop_last());
        assert(join_with(u, sep) =~= join_with(r, sep).push(c));
    }
}

/// Splitting at `sep` gives one piece more than there are separators, no
/// piece holds a separator, and joining the pieces with `sep` gives the text
/// back.
pub proof fn lemma_split_pieces(s: Seq<char>, sep: char)
    ensures
        split_seq(s, sep).len() == count_char(s, sep) + 1,
        join_with(split_seq(s, sep), sep) == s,
        forall|k: int, i: int|
            0 <= k < split_seq(s, sep).len() && 0 <= i < split_seq(s, sep)[k].len() ==> #[trigger] split_seq(
                s,
                sep,
            )[k][i] != sep,
    decreases s.len(),
{
    if s.len() == 0 {
        assert(join_with(seq![seq![]], sep) == Seq::<char>::empty());
    } else {
        let d = s.drop_last();
        lemma_split_pieces(d, sep);
        lemma_split_nonempty(d, sep);
        let rest = split_seq(d, sep);
        let parts = split_seq(s, sep);
        if s.last() == sep {
            assert(rest.push(seq![]).drop_last() =~= rest);
            assert(join_with(rest.push(seq![]), sep) =~= d + seq![sep]);
        } else {
            lemma_join_with_extend_last(rest, sep, s.last());
        }
        assert(s =~= d.push(s.last()));
        assert forall|k: int, i: int| 0 <= k < parts.len() && 0 <= i < parts[k].len() implies #[trigger] parts[k][i]
            != sep by {
            if s.last() != sep && k == rest.len() - 1 {
                if i < rest[k].len() {
                    assert(parts[k][i] == rest[k][i]);
                } else {
                    assert(parts[k][i] == s.last());
                }
            } else if k < rest.len() {
                assert(parts[k] == rest[k]);
            }
        }
    }
}

proof fn lemma_trim_start_within(s: Seq<char>, c: char)
    requires
        forall|i: int| 0 <= i < s.len() ==> s[i] != c,
    ensures
        forall|i: int| 0 <= i < trim_start_seq(s).len() ==> #[trigger] trim_start_seq(s)[i] != c,
    decreases s.len(),
{
    if s.len() > 0 && is_ws(s[0]) {
        assert forall|i: int| 0 <= i < s.drop_first().len() implies s.drop_first()[i] != c by {
            assert(s.drop_first()[i] == s[i + 1]);
        }
        lemma_trim_start_within(s.drop_first(), c);
        assert(trim_start_seq(s) == trim_start_seq(s.drop_first()));
    } else {
        assert(trim_start_seq(s) == s);
    }
}

proof fn lemma_trim_end_within(s: Seq<char>, c: char)
    requires
        forall|i: int| 0 <= i < s.len() ==> s[i] != c,
    ensures
        forall|i: int| 0 <= i < trim_end_seq(s).len() ==> #[trigger] trim_end_seq(s)[i] != c,
    decreases s.len(),
{
    if s.len() > 0 && is_ws(s.last()) {
        assert forall|i: int| 0 <= i < s.drop_last().len() implies s.drop_last()[i] != c by {
            assert(s.drop_last()[i] == s[i]);
        }
        lemma_trim_end_within(s.drop_last(), c);
        assert(trim_end_seq(s) == trim_end_seq(s.drop_last()));
    } else {
        assert(trim_end_seq(s) == s);
    }
}

/// Trimming adds no character: a piece without `c` stays without it.
pub proof fn lemma_trim_within(s: Seq<char>, c: char)
    requires
        forall|i: int| 0 <= i < s.len() ==> s[i] != c,
    ensures
        forall|i: int| 0 <= i < trim_seq(s).len() ==> #[trigger] trim_seq(s)[i] != c,
{
    lemma_trim_start_within(s, c);
    lemma_trim_end_within(trim_start_seq(s), c);
}

/// A text that ends with a newline and holds no carriage return is its lines
/// joined with newlines, plus the final newline.
pub proof fn lemma_lines_roundtrip(t: Seq<char>)
    requires
        t.len() > 0,
        t.last() == '\n',
        forall|i: int| 0 <= i < t.len() ==> t[i] != '\r',
    ensures
        joined(lines_seq(t)) + seq!['\n'] == t,
{
    let d = t.drop_last();
    assert(t =~= d.push('\n'));
    lemma_split_nonempty(d, '\n');
    let parts = split_seq(t, '\n');
    assert(parts == split_seq(d, '\n').push(seq![]));
    assert(parts.drop_last() =~= split_seq(d, '\n'));
    lemma_split_without(t, '\r');
    let ls = lines_seq(t);
    assert(ls =~= split_seq(d, '\n')) by {
        assert forall|k: int| 0 <= k < ls.len() implies ls[k] == split_seq(d, '\n')[k] by {
            let p = parts.drop_last()[k];
            assert(p == parts[k]);
            if p.len() > 0 {
                assert(p[p.len() - 1] != '\r');
            }
        }
    }
    lemma_joined_split(d);
}

} // verus!
