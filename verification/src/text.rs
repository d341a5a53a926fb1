//! Text as a list of characters, and the classes of characters that the
//! request language tells apart.

use vstd::prelude::*;
use vstd::std_specs::iter::IteratorSpec;
use vstd::string::StrSliceExecFns;

verus! {

broadcast use vstd::string::group_string_axioms;

/// White space, as Unicode defines it.
pub open spec fn is_space(c: char) -> bool {
    let n = c as u32;
    ||| 0x09 <= n <= 0x0D
    ||| n == 0x20
    ||| n == 0x85
    ||| n == 0xA0
    ||| n == 0x1680
    ||| 0x2000 <= n <= 0x200A
    ||| n == 0x2028
    ||| n == 0x2029
    ||| n == 0x202F
    ||| n == 0x205F
    ||| n == 0x3000
}

/// Whether `c` is white space, as Unicode defines it.
pub fn is_whitespace(c: char) -> (yes: bool)
    ensures
        yes == is_space(c),
{
    let n = c as u32;
    (0x09 <= n && n <= 0x0D) || n == 0x20 || n == 0x85 || n == 0xA0 || n == 0x1680 || (0x2000 <= n && n
        <= 0x200A) || n == 0x2028 || n == 0x2029 || n == 0x202F || n == 0x205F || n == 0x3000
}

/// The classes of characters that the request language tells apart.
#[derive(Debug, Clone, Copy, PartialEq, Eq, Structural)]
pub enum Class {
    /// A decimal digit.
    Digit,
    /// Anything but white space and control characters.
    Graphic,
    /// A printable ASCII character other than the space.
    AsciiGraphic,
    /// A graphic character other than the two square brackets.
    Plain,
    /// White space other than the line feed.
    Blank,
    /// White space.
    Space,
    /// Anything but white space.
    Solid,
}

/// A control character, as Unicode defines it.
pub open spec fn is_control(c: char) -> bool {
    let n = c as u32;
    n <= 0x1F || 0x7F <= n <= 0x9F
}

impl Class {
    /// `c` belongs to the class.
    pub open spec fn holds(self, c: char) -> bool {
        let n = c as u32;
        match self {
            Class::Digit => 0x30 <= n <= 0x39,
            Class::Graphic => !is_space(c) && !is_control(c),
            Class::AsciiGraphic => 0x21 <= n <= 0x7E,
            Class::Plain => !is_space(c) && !is_control(c) && c != '[' && c != ']',
            Class::Blank => is_space(c) && c != '\n',
            Class::Space => is_space(c),
            Class::Solid => !is_space(c),
        }
    }

    /// Whether `c` belongs to the class.
    pub fn has(self, c: char) -> (yes: bool)
        ensures
            yes == self.holds(c),
    {
        let n = c as u32;
        let control = n <= 0x1F || (0x7F <= n && n <= 0x9F);
        match self {
            Class::Digit => 0x30 <= n && n <= 0x39,
            Class::Graphic => !is_whitespace(c) && !control,
            Class::AsciiGraphic => 0x21 <= n && n <= 0x7E,
            Class::Plain => !is_whitespace(c) && !control && c != '[' && c != ']',
            Class::Blank => is_whitespace(c) && c != '\n',
            Class::Space => is_whitespace(c),
            Class::Solid => !is_whitespace(c),
        }
    }
}

/// Where the run of characters of `class` that starts at `at` ends.
pub open spec fn span(s: Seq<char>, at: int, class: Class) -> int
    decreases s.len() - at,
{
    if 0 <= at < s.len() && class.holds(s[at]) {
        span(s, at + 1, class)
    } else {
        at
    }
}

/// Where the run of white space that ends at `at` starts, not before `floor`.
pub open spec fn span_back(s: Seq<char>, at: int, floor: int) -> int
    decreases at,
{
    if floor < at <= s.len() && 0 < at && is_space(s[at - 1]) {
        span_back(s, at - 1, floor)
    } else {
        at
    }
}

/// `s` without the white space at its two ends.
pub open spec fn trim(s: Seq<char>) -> Seq<char> {
    let from = span(s, 0, Class::Space);
    s.subrange(from, span_back(s, s.len() as int, from))
}

/// The run of `class` from `at` ends within the text, and holds only such characters.
pub proof fn lemma_span(s: Seq<char>, at: int, class: Class)
    requires
        0 <= at <= s.len(),
    ensures
        at <= span(s, at, class) <= s.len(),
        forall|k: int| at <= k < span(s, at, class) ==> class.holds(#[trigger] s[k]),
        span(s, at, class) < s.len() ==> !class.holds(s[span(s, at, class)]),
    decreases s.len() - at,
{
    if at < s.len() && class.holds(s[at]) {
        lemma_span(s, at + 1, class);
    }
}

/// The white space before `at` starts between `floor` and `at`.
pub proof fn lemma_span_back(s: Seq<char>, at: int, floor: int)
    requires
        0 <= floor <= at <= s.len(),
    ensures
        floor <= span_back(s, at, floor) <= at,
        forall|k: int| span_back(s, at, floor) <= k < at ==> is_space(#[trigger] s[k]),
        span_back(s, at, floor) > floor ==> !is_space(s[span_back(s, at, floor) - 1]),
    decreases at,
{
    if floor < at && is_space(s[at - 1]) {
        lemma_span_back(s, at - 1, floor);
    }
}

/// Where the run of characters of `class` that starts at `at` ends.
pub fn run(s: &Vec<char>, at: usize, class: Class) -> (end: usize)
    requires
        at <= s.len(),
    ensures
        end == span(s@, at as int, class),
        at <= end <= s.len(),
{
    let mut end = at;
    while end < s.len() && class.has(s[end])
        invariant
            at <= end <= s.len(),
            span(s@, at as int, class) == span(s@, end as int, class),
        decreases s.len() - end,
    {
        end += 1;
    }
    end
}

/// The characters of `s` from `from` up to `to`.
pub fn slice(s: &Vec<char>, from: usize, to: usize) -> (part: Vec<char>)
    requires
        from <= to <= s.len(),
    ensures
        part@ == s@.subrange(from as int, to as int),
{
    let mut part: Vec<char> = Vec::new();
    let mut i = from;
    while i < to
        invariant
            from <= i <= to <= s.len(),
            part@ == s@.subrange(from as int, i as int),
        decreases to - i,
    {
        part.push(s[i]);
        assert(s@.subrange(from as int, i + 1) =~= s@.subrange(from as int, i as int).push(s@[i as int]));
        i += 1;
    }
    part
}

/// `s` without the white space at its two ends.
pub fn trimmed(s: &Vec<char>) -> (part: Vec<char>)
    ensures
        part@ == trim(s@),
{
    let from = run(s, 0, Class::Space);
    let mut to = s.len();
    while to > from && is_whitespace(s[to - 1])
        invariant
            from <= to <= s.len(),
            span_back(s@, s.len() as int, from as int) == span_back(s@, to as int, from as int),
        decreases to,
    {
        to -= 1;
    }
    slice(s, from, to)
}

/// The characters of `s`, one by one.
pub fn chars_of(s: &str) -> (chars: Vec<char>)
    ensures
        chars@ == s@,
{
    let mut chars: Vec<char> = Vec::new();
    let total = s.unicode_len();
    let mut it = s.chars();
    assert(chars@ + it.remaining() =~= s@);
    loop
        invariant
            chars@ + it.remaining() == s@,
            total == s@.len(),
        ensures
            chars@ == s@,
        decreases total - chars@.len(),
    {
        let ghost before = it.remaining();
        match it.next() {
            Some(c) => {
                assert(chars@.push(c) + before.drop_first() =~= chars@ + before);
                chars.push(c);
            },
            None => {
                assert(chars@ + before =~= chars@);
                break ;
            },
        }
    }
    chars
}

/// Text that holds the characters `chars`.
pub fn string_of(chars: &Vec<char>) -> (s: String)
    ensures
        s@ == chars@,
{
    let mut s = String::new();
    let mut i: usize = 0;
    while i < chars.len()
        invariant
            i <= chars.len(),
            s@ == chars@.take(i as int),
        decreases chars.len() - i,
    {
        s.push(chars[i]);
        assert(chars@.take(i + 1) =~= chars@.take(i as int).push(chars@[i as int]));
        i += 1;
    }
    assert(chars@.take(i as int) =~= chars@);
    s
}

/// `String::push` puts one character at the end of the text.
pub assume_specification[ String::push ](s: &mut String, c: char)
    ensures
        final(s)@ == old(s)@.push(c),
;

/// The digit that writes `d`.
pub open spec fn digit(d: int) -> char {
    if d == 0 {
        '0'
    } else if d == 1 {
        '1'
    } else if d == 2 {
        '2'
    } else if d == 3 {
        '3'
    } else if d == 4 {
        '4'
    } else if d == 5 {
        '5'
    } else if d == 6 {
        '6'
    } else if d == 7 {
        '7'
    } else if d == 8 {
        '8'
    } else {
        '9'
    }
}

/// How a number that is not negative is written: in decimal digits, without leading zeros.
pub open spec fn numeral(n: int) -> Seq<char>
    decreases n,
{
    if n < 10 {
        seq![digit(n)]
    } else {
        numeral(n / 10).push(digit(n % 10))
    }
}

/// How a number is written: in decimal digits, a minus sign before a negative one.
pub open spec fn decimal(n: int) -> Seq<char> {
    if n < 0 {
        seq!['-'] + numeral(-n)
    } else {
        numeral(n)
    }
}

/// The digit that writes `d`.
fn digit_of(d: u64) -> (c: char)
    requires
        d < 10,
    ensures
        c == digit(d as int),
{
    if d == 0 {
        '0'
    } else if d == 1 {
        '1'
    } else if d == 2 {
        '2'
    } else if d == 3 {
        '3'
    } else if d == 4 {
        '4'
    } else if d == 5 {
        '5'
    } else if d == 6 {
        '6'
    } else if d == 7 {
        '7'
    } else if d == 8 {
        '8'
    } else {
        '9'
    }
}

/// The digits of `n`.
fn numeral_of(n: u64) -> (digits: Vec<char>)
    ensures
        digits@ == numeral(n as int),
    decreases n,
{
    if n < 10 {
        let mut digits: Vec<char> = Vec::new();
        digits.push(digit_of(n));
        assert(digits@ =~= seq![digit(n as int)]);
        digits
    } else {
        let mut digits = numeral_of(n / 10);
        digits.push(digit_of(n % 10));
        digits
    }
}

/// How `n` is written in decimal digits.
pub fn decimal_of(n: i64) -> (digits: Vec<char>)
    ensures
        digits@ == decimal(n as int),
{
    if n < 0 {
        let size: u64 = if n == i64::MIN {
            9_223_372_036_854_775_808
        } else {
            (-n) as u64
        };
        let mut digits: Vec<char> = Vec::new();
        digits.push('-');
        let mut rest = numeral_of(size);
        assert(digits@ =~= seq!['-']);
        digits.append(&mut rest);
        digits
    } else {
        numeral_of(n as u64)
    }
}

/// The characters of `a` followed by those of `b`.
pub fn joined(a: &Vec<char>, b: &Vec<char>) -> (both: Vec<char>)
    ensures
        both@ == a@ + b@,
{
    let mut both: Vec<char> = Vec::new();
    let mut i: usize = 0;
    while i < a.len()
        invariant
            i <= a.len(),
            both@ == a@.take(i as int),
        decreases a.len() - i,
    {
        both.push(a[i]);
        assert(a@.take(i + 1) =~= a@.take(i as int).push(a@[i as int]));
        i += 1;
    }
    assert(a@.take(i as int) =~= a@);
    let mut j: usize = 0;
    while j < b.len()
        invariant
            j <= b.len(),
            both@ == a@ + b@.take(j as int),
        decreases b.len() - j,
    {
        both.push(b[j]);
        assert(a@ + b@.take(j + 1) =~= (a@ + b@.take(j as int)).push(b@[j as int]));
        j += 1;
    }
    assert(b@.take(j as int) =~= b@);
    both
}

} // verus!
