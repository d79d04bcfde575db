use std::path::PathBuf;
use vstd::prelude::*;

use crate::error::Error;

verus! {

#[verifier::external_type_specification]
#[verifier::external_body]
pub struct ExPathBuf(PathBuf);

/// White space as Unicode's `White_Space` property has it, the characters
/// `str::trim` strips: tab through carriage return, space, next line,
/// no-break space, ogham space mark, the spaces from en quad to hair space,
/// line and paragraph separators, narrow no-break space, medium mathematical
/// space and ideographic space.
pub open spec fn is_space(c: char) -> bool {
    ||| '\u{9}' <= c <= '\u{d}'
    ||| c == ' '
    ||| c == '\u{85}'
    ||| c == '\u{a0}'
    ||| c == '\u{1680}'
    ||| '\u{2000}' <= c <= '\u{200a}'
    ||| c == '\u{2028}'
    ||| c == '\u{2029}'
    ||| c == '\u{202f}'
    ||| c == '\u{205f}'
    ||| c == '\u{3000}'
}

/// An ASCII decimal digit.
pub open spec fn is_digit(c: char) -> bool {
    '0' <= c <= '9'
}

/// `s` without its leading white space.
pub open spec fn trim_start(s: Seq<char>) -> Seq<char>
    decreases s.len(),
{
    if s.len() > 0 && is_space(s[0]) {
        trim_start(s.drop_first())
    } else {
        s
    }
}

/// `s` without its trailing white space.
pub open spec fn trim_end(s: Seq<char>) -> Seq<char>
    decreases s.len(),
{
    if s.len() > 0 && is_space(s.last()) {
        trim_end(s.drop_last())
    } else {
        s
    }
}

/// The number that the decimal digits `s` spell.
pub open spec fn digits_value(s: Seq<char>) -> int
    decreases s.len(),
{
    if s.len() == 0 {
        0
    } else {
        digits_value(s.drop_last()) * 10 + (s.last() as int - '0' as int)
    }
}

/// Every character of `s` is a decimal digit.
pub open spec fn all_digits(s: Seq<char>) -> bool {
    forall|i: int| 0 <= i < s.len() ==> is_digit(#[trigger] s[i])
}

/// What should be the digits of a reading: `s` without surrounding white
/// space and without one leading `+`.
pub open spec fn unsigned_text(s: Seq<char>) -> Seq<char> {
    let t = trim_end(trim_start(s));
    if t.len() > 0 && t[0] == '+' {
        t.drop_first()
    } else {
        t
    }
}

/// The reading a device file holds: optional white space around an optional
/// `+` and one or more decimal digits whose value fits in a `u32`.
pub open spec fn parsed_reading(s: Seq<char>) -> Option<int> {
    let d = unsigned_text(s);
    if d.len() > 0 && all_digits(d) && digits_value(d) <= u32::MAX {
        Some(digits_value(d))
    } else {
        None
    }
}

/// Digits appended never lower the value of a prefix.
proof fn lemma_digits_prefix(s: Seq<char>, k: int)
    requires
        0 <= k <= s.len(),
        all_digits(s),
    ensures
        0 <= digits_value(s.subrange(0, k)) <= digits_value(s),
    decreases s.len(),
{
    if s.len() > 0 {
        let t = s.drop_last();
        assert(forall|i: int| 0 <= i < t.len() ==> t[i] == s[i]);
        if k < s.len() {
            assert(t.subrange(0, k) =~= s.subrange(0, k));
            lemma_digits_prefix(t, k);
        } else {
            assert(s.subrange(0, k) =~= s);
            lemma_digits_prefix(t, 0);
        }
    } else {
        assert(s.subrange(0, k) =~= s);
    }
}

/// Whether `c` is white space, as `is_space` defines it.
fn space_char(c: char) -> (r: bool)
    ensures
        r == is_space(c),
{
    ('\u{9}' <= c && c <= '\u{d}') || c == ' ' || c == '\u{85}' || c == '\u{a0}' || c
        == '\u{1680}' || ('\u{2000}' <= c && c <= '\u{200a}') || c == '\u{2028}' || c
        == '\u{2029}' || c == '\u{202f}' || c == '\u{205f}' || c == '\u{3000}'
}

/// The reading in the text of a device file; text that holds none is an I/O error.
pub fn parse_reading(text: &str) -> (r: Result<u32, Error>)
    ensures
        match parsed_reading(text@) {
            Some(v) => r == Ok::<u32, Error>(v as u32),
            None => r == Err::<u32, Error>(Error::Io),
        },
{
    let mut cs: Vec<char> = Vec::new();
    for c in it: text.chars()
        invariant
            cs@ == it.seq().take(it.index() as int),
    {
        cs.push(c);
    }
    let ghost s = cs@;
    assert(s == text@);
    let n = cs.len();
    let mut start: usize = 0;
    assert(s.subrange(0, n as int) =~= s);
    while start < n && space_char(cs[start])
        invariant
            s == cs@,
            s == text@,
            n == s.len(),
            start <= n,
            trim_start(s) == trim_start(s.subrange(start as int, n as int)),
        decreases n - start,
    {
        assert(s.subrange(start as int, n as int).drop_first() =~= s.subrange(start + 1, n as int));
        start = start + 1;
    }
    let mut end: usize = n;
    while end > start && space_char(cs[end - 1])
        invariant
            s == cs@,
            s == text@,
            n == s.len(),
            start <= end <= n,
            trim_start(s) == s.subrange(start as int, n as int),
            trim_end(trim_start(s)) == trim_end(s.subrange(start as int, end as int)),
        decreases end,
    {
        assert(s.subrange(start as int, end as int).drop_last() =~= s.subrange(
            start as int,
            end - 1,
        ));
        end = end - 1;
    }
    let ghost t = s.subrange(start as int, end as int);
    assert(trim_end(trim_start(s)) == t);
    let mut first = start;
    if end > start && cs[start] == '+' {
        assert(t.drop_first() =~= s.subrange(start + 1, end as int));
        first = start + 1;
    }
    let ghost d = s.subrange(first as int, end as int);
    assert(d == unsigned_text(s));
    if first == end {
        return Err(Error::Io);
    }
    let mut value: u64 = 0;
    let mut i: usize = first;
    while i < end
        invariant
            s == cs@,
            s == text@,
            n == s.len(),
            first <= i <= end <= n,
            d == s.subrange(first as int, end as int),
            d == unsigned_text(s),
            forall|j: int| 0 <= j < i - first ==> is_digit(#[trigger] d[j]),
            value == digits_value(d.subrange(0, i - first)),
            value <= u32::MAX,
        decreases end - i,
    {
        let c = cs[i];
        if c < '0' || c > '9' {
            assert(!is_digit(d[i - first]));
            return Err(Error::Io);
        }
        assert(d.subrange(0, i + 1 - first).drop_last() =~= d.subrange(0, i - first));
        value = value * 10 + (c as u32 - '0' as u32) as u64;
        i = i + 1;
        if value > u32::MAX as u64 {
            proof {
                if all_digits(d) {
                    lemma_digits_prefix(d, i - first);
                }
            }
            return Err(Error::Io);
        }
    }
    assert(d.subrange(0, end - first) =~= d);
    Ok(value as u32)
}

/// A device whose current value can be read, in the range `0..=max()`.
pub trait DeviceRead {
    /// The value the device reports now.
    fn get(&self) -> Result<u32, Error>;

    /// The largest value the device takes.
    fn max(&self) -> u32;
}

/// A device whose value can be set.
pub trait DeviceWrite {
    /// Sets the device to `value`.
    fn set(&mut self, value: u32) -> Result<(), Error>;
}

/// The backlight being driven: where it is, its range, and the value this
/// controller last wrote to it.
pub struct Backlight {
    pub path: PathBuf,
    pub max: u32,
    pub requested: u32,
}

impl Backlight {
    /// Whether a device reading of `current` shows a change this controller did
    /// not make: anything other than the value it last requested.
    pub fn changed(&self, current: u32) -> (r: bool)
        ensures
            r == (current != self.requested),
    {
        current != self.requested
    }
}

/// The ambient-light sensor: where it is and its range.
pub struct Ambient {
    pub path: PathBuf,
    pub max: u32,
}

} // verus!
