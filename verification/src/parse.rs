//! The settings of the diagnostics, as text.

use crate::plan::Lxr;
use crate::state::DiagView;
use crate::state::Event;
use crate::state::State;
use crate::trace::address_added;
use crate::trace::rc_trace_add_addr;
use vstd::prelude::*;
use vstd::string::StrSliceExecFns;

verus! {

/// The scans that the undercount detector may make unless a budget is set.
pub const DEFAULT_UNDERCOUNT_BUDGET: usize = 200;

/// Why a text is no number.
#[derive(Clone, Copy, Debug, PartialEq, Eq, Structural)]
pub enum NumberError {
    /// There is nothing to read.
    Empty,
    /// There is something that is no digit.
    InvalidDigit,
    /// The number is too large.
    Overflow,
}

// Text.

/// Whether a character is white space.
pub open spec fn is_space(c: char) -> bool {
    let n = c as int;
    ||| 0x9 <= n <= 0xd
    ||| n == 0x20
    ||| n == 0x85
    ||| n == 0xa0
    ||| n == 0x1680
    ||| 0x2000 <= n <= 0x200a
    ||| n == 0x2028
    ||| n == 0x2029
    ||| n == 0x202f
    ||| n == 0x205f
    ||| n == 0x3000
}

/// The text without the white space in front.
pub open spec fn trimmed_start(s: Seq<char>) -> Seq<char>
    decreases s.len(),
{
    if s.len() > 0 && is_space(s[0]) {
        trimmed_start(s.skip(1))
    } else {
        s
    }
}

/// The text without the white space at the end.
pub open spec fn trimmed_end(s: Seq<char>) -> Seq<char>
    decreases s.len(),
{
    if s.len() > 0 && is_space(s.last()) {
        trimmed_end(s.drop_last())
    } else {
        s
    }
}

/// The text without the white space around it.
pub open spec fn trimmed(s: Seq<char>) -> Seq<char> {
    trimmed_end(trimmed_start(s))
}

/// The parts of a text between commas.
pub open spec fn comma_parts(s: Seq<char>) -> Seq<Seq<char>>
    decreases s.len(),
{
    if s.len() == 0 {
        seq![Seq::empty()]
    } else {
        let parts = comma_parts(s.drop_last());
        if s.last() == ',' {
            parts.push(Seq::empty())
        } else {
            parts.drop_last().push(parts.last().push(s.last()))
        }
    }
}

/// The text behind `0x` or `0X`, where it starts with that.
pub open spec fn without_hex_prefix(s: Seq<char>) -> Seq<char> {
    if s.len() >= 2 && s[0] == '0' && (s[1] == 'x' || s[1] == 'X') {
        s.skip(2)
    } else {
        s
    }
}

/// The value of a digit.
pub open spec fn digit_value(c: char, radix: int) -> Option<int> {
    let n = c as int;
    let value = if '0' as int <= n <= '9' as int {
        n - '0' as int
    } else if 'a' as int <= n <= 'z' as int {
        n - 'a' as int + 10
    } else if 'A' as int <= n <= 'Z' as int {
        n - 'A' as int + 10
    } else {
        radix
    };
    if value < radix {
        Some(value)
    } else {
        None
    }
}

/// The number that digits stand for. The first digit that is none, or that makes
/// the number too large, is an error.
pub open spec fn digits_value(s: Seq<char>, radix: int) -> Result<int, NumberError>
    decreases s.len(),
{
    if s.len() == 0 {
        Ok(0)
    } else {
        match digits_value(s.drop_last(), radix) {
            Err(e) => Err(e),
            Ok(n) => match digit_value(s.last(), radix) {
                None => Err(NumberError::InvalidDigit),
                Some(d) => if n * radix + d > usize::MAX {
                    Err(NumberError::Overflow)
                } else {
                    Ok(n * radix + d)
                },
            },
        }
    }
}

/// The number that a text stands for: digits, with or without a plus sign in
/// front.
pub open spec fn number(s: Seq<char>, radix: int) -> Result<int, NumberError> {
    if s.len() == 0 {
        Err(NumberError::Empty)
    } else if s[0] == '+' && s.len() > 1 {
        digits_value(s.skip(1), radix)
    } else {
        digits_value(s, radix)
    }
}

/// The number that a text stands for in hexadecimal.
pub open spec fn hex_number(s: Seq<char>) -> Result<int, NumberError> {
    number(without_hex_prefix(s), 16)
}

/// Whether a character is white space.
pub fn is_white_space(c: char) -> (space: bool)
    ensures
        space == is_space(c),
{
    let n: u32 = c as u32;
    (0x9 <= n && n <= 0xd) || n == 0x20 || n == 0x85 || n == 0xa0 || n == 0x1680 || (0x2000 <= n
        && n <= 0x200a) || n == 0x2028 || n == 0x2029 || n == 0x202f || n == 0x205f || n == 0x3000
}

/// The characters of a text.
fn characters(text: &str) -> (chars: Vec<char>)
    ensures
        chars@ == text@,
{
    let len: usize = text.unicode_len();
    let mut chars: Vec<char> = Vec::new();
    let mut i: usize = 0;
    while i < len
        invariant
            i <= len,
            len == text@.len(),
            chars@ == text@.take(i as int),
        decreases len - i,
    {
        chars.push(text.get_char(i));
        i += 1;
        proof {
            assert(text@.take(i as int) =~= text@.take(i - 1).push(text@[i - 1]));
        }
    }
    proof {
        assert(text@.take(i as int) =~= text@);
    }
    chars
}

/// The text from `from` up to `to`, as a new list.
fn cut(text: &Vec<char>, from: usize, to: usize) -> (part: Vec<char>)
    requires
        from <= to <= text@.len(),
    ensures
        part@ == text@.subrange(from as int, to as int),
{
    let mut part: Vec<char> = Vec::new();
    let mut i: usize = from;
    while i < to
        invariant
            from <= i <= to <= text@.len(),
            part@ == text@.subrange(from as int, i as int),
        decreases to - i,
    {
        part.push(text[i]);
        i += 1;
        proof {
            assert(text@.subrange(from as int, i as int) =~= text@.subrange(
                from as int,
                i - 1,
            ).push(text@[i - 1]));
        }
    }
    part
}

/// The text without the white space around it.
pub fn trim(text: &Vec<char>) -> (rest: Vec<char>)
    ensures
        rest@ == trimmed(text@),
{
    let mut from: usize = 0;
    proof {
        assert(text@.skip(0) =~= text@);
    }
    while from < text.len() && is_white_space(text[from])
        invariant
            from <= text@.len(),
            trimmed_start(text@.skip(from as int)) == trimmed_start(text@),
        decreases text@.len() - from,
    {
        proof {
            assert(text@.skip(from as int).skip(1) =~= text@.skip(from + 1));
        }
        from += 1;
    }
    let ghost tail = text@.skip(from as int);
    let mut to: usize = text.len();
    proof {
        assert(trimmed_start(text@) == tail);
        assert(text@.subrange(from as int, to as int) =~= tail);
    }
    while to > from && is_white_space(text[to - 1])
        invariant
            from <= to <= text@.len(),
            trimmed_end(text@.subrange(from as int, to as int)) == trimmed_end(tail),
        decreases to,
    {
        proof {
            assert(text@.subrange(from as int, to as int).drop_last() =~= text@.subrange(
                from as int,
                to - 1,
            ));
        }
        to -= 1;
    }
    cut(text, from, to)
}

/// The parts of a text between commas.
pub fn split_at_commas(text: &Vec<char>) -> (parts: Vec<Vec<char>>)
    ensures
        parts@.map_values(|p: Vec<char>| p@) == comma_parts(text@),
{
    let mut parts: Vec<Vec<char>> = Vec::new();
    let mut current: Vec<char> = Vec::new();
    let mut i: usize = 0;
    let ghost views = |p: Vec<char>| p@;
    proof {
        assert(parts@.map_values(views).push(current@) =~= comma_parts(text@.take(0)));
    }
    while i < text.len()
        invariant
            i <= text@.len(),
            views == (|p: Vec<char>| p@),
            parts@.map_values(views).push(current@) == comma_parts(text@.take(i as int)),
        decreases text@.len() - i,
    {
        let c: char = text[i];
        let ghost before = parts@.map_values(views);
        let ghost last = current@;
        i += 1;
        proof {
            assert(text@.take(i as int).drop_last() =~= text@.take(i - 1));
            assert(before.push(last).drop_last() =~= before);
        }
        if c == ',' {
            let mut next: Vec<char> = Vec::new();
            std::mem::swap(&mut current, &mut next);
            parts.push(next);
            proof {
                assert(current@ =~= Seq::<char>::empty());
                assert(parts@.map_values(views) =~= before.push(last));
            }
        } else {
            current.push(c);
        }
    }
    parts.push(current);
    proof {
        assert(text@.take(i as int) =~= text@);
        assert(parts@.map_values(views) =~= comma_parts(text@));
    }
    parts
}

/// The value of a digit.
fn value_of(c: char, radix: u32) -> (value: Option<u32>)
    requires
        radix <= 36,
    ensures
        match value {
            Some(v) => digit_value(c, radix as int) == Some(v as int),
            None => digit_value(c, radix as int) is None,
        },
{
    let n: u32 = c as u32;
    let value: u32 = if 48 <= n && n <= 57 {
        n - 48
    } else if 97 <= n && n <= 122 {
        n - 97 + 10
    } else if 65 <= n && n <= 90 {
        n - 65 + 10
    } else {
        radix
    };
    if value < radix {
        Some(value)
    } else {
        None
    }
}

/// Two results about a number agree.
pub open spec fn same_number(a: Result<usize, NumberError>, b: Result<int, NumberError>) -> bool {
    match a {
        Ok(n) => b == Ok::<int, NumberError>(n as int),
        Err(e) => b == Err::<int, NumberError>(e),
    }
}

/// The number that a text stands for, in a radix from 2 up to 36.
pub fn parse_number(text: &Vec<char>, radix: u32) -> (result: Result<usize, NumberError>)
    requires
        2 <= radix <= 36,
    ensures
        same_number(result, number(text@, radix as int)),
{
    if text.len() == 0 {
        return Err(NumberError::Empty);
    }
    let start: usize = if text[0] == '+' && text.len() > 1 {
        1
    } else {
        0
    };
    let ghost digits = text@.skip(start as int);
    proof {
        assert(text@.skip(0) =~= text@);
        assert(number(text@, radix as int) == digits_value(digits, radix as int));
    }
    let mut n: usize = 0;
    let mut i: usize = start;
    while i < text.len()
        invariant
            2 <= radix <= 36,
            start <= i <= text@.len(),
            digits == text@.skip(start as int),
            digits_value(digits.take(i - start), radix as int) == Ok::<int, NumberError>(n as int),
            number(text@, radix as int) == digits_value(digits, radix as int),
        decreases text@.len() - i,
    {
        proof {
            assert(digits.take(i + 1 - start).drop_last() =~= digits.take(i - start));
            assert(digits.take(i + 1 - start).last() == text@[i as int]);
        }
        let d: u32 = match value_of(text[i], radix) {
            Some(d) => d,
            None => {
                proof {
                    lemma_error_stays(digits, radix as int, i + 1 - start);
                }
                return Err(NumberError::InvalidDigit);
            },
        };
        let raised: Option<usize> = match n.checked_mul(radix as usize) {
            Some(m) => m.checked_add(d as usize),
            None => None,
        };
        match raised {
            Some(m) => {
                n = m;
            },
            None => {
                proof {
                    lemma_error_stays(digits, radix as int, i + 1 - start);
                }
                return Err(NumberError::Overflow);
            },
        }
        i += 1;
    }
    proof {
        assert(digits.take(i - start) =~= digits);
    }
    Ok(n)
}

/// An error in the first digits is one of all digits.
proof fn lemma_error_stays(s: Seq<char>, radix: int, count: int)
    requires
        0 <= count <= s.len(),
        digits_value(s.take(count), radix) is Err,
    ensures
        digits_value(s, radix) == digits_value(s.take(count), radix),
    decreases s.len() - count,
{
    if count == s.len() {
        assert(s.take(count) =~= s);
    } else {
        assert(s.take(count + 1).drop_last() =~= s.take(count));
        lemma_error_stays(s, radix, count + 1);
    }
}

/// The number that a text stands for in hexadecimal, with or without `0x` in
/// front.
pub fn parse_hex(text: &Vec<char>) -> (result: Result<usize, NumberError>)
    ensures
        same_number(result, hex_number(text@)),
{
    if text.len() >= 2 && text[0] == '0' && (text[1] == 'x' || text[1] == 'X') {
        let rest: Vec<char> = cut(text, 2, text.len());
        proof {
            assert(rest@ =~= text@.skip(2));
        }
        parse_number(&rest, 16)
    } else {
        parse_number(text, 16)
    }
}

// Settings.

/// The state after a part of the address list, which may be blank.
pub open spec fn part_added(s: State, part: Seq<char>, index: int) -> State {
    if trimmed(part).len() == 0 {
        s
    } else {
        match hex_number(trimmed(part)) {
            Ok(address) => address_added(s, address as usize),
            Err(error) => s.with_event(Event::BadAddress { part: index as usize, error }),
        }
    }
}

/// The state after the parts of an address list.
pub open spec fn parts_added(s: State, parts: Seq<Seq<char>>) -> State
    decreases parts.len(),
{
    if parts.len() == 0 {
        s
    } else {
        part_added(parts_added(s, parts.drop_last()), parts.last(), parts.len() - 1)
    }
}

/// The state after the tag to trace was set; its low four bits do not count.
pub open spec fn tag_set(s: State, text: Seq<char>) -> State {
    match hex_number(trimmed(text)) {
        Ok(tag) => {
            let masked = (tag - tag % 16) as usize;
            State { diag: DiagView { tag: masked, ..s.diag }, ..s }.with_event(
                Event::TracingTag { tag: masked },
            )
        },
        Err(error) => s.with_event(Event::BadTag { error }),
    }
}

/// The state after the trace set was initialised.
pub open spec fn trace_initialised(
    s: State,
    addresses: Option<Seq<char>>,
    tag: Option<Seq<char>>,
) -> State {
    let s1 = match addresses {
        Some(text) => parts_added(s, comma_parts(text)),
        None => s,
    };
    match tag {
        Some(text) => tag_set(s1, text),
        None => s1,
    }
}

/// The number in a setting, where it has one.
pub open spec fn setting(text: Option<Seq<char>>) -> Option<usize> {
    match text {
        Some(text) => match number(trimmed(text), 10) {
            Ok(n) => Some(n as usize),
            Err(_) => None,
        },
        None => None,
    }
}

/// The state after the undercount detector was initialised: either setting
/// switches it on. Without a budget that is a number it has the default one.
pub open spec fn undercount_initialised(
    s: State,
    budget: Option<Seq<char>>,
    from_gc: Option<Seq<char>>,
) -> State {
    let diag = DiagView {
        undercount_budget: match setting(budget) {
            Some(n) => n,
            None => DEFAULT_UNDERCOUNT_BUDGET,
        },
        undercount_from_gc: match setting(from_gc) {
            Some(n) => n,
            None => s.diag.undercount_from_gc,
        },
        ..s.diag
    };
    if setting(budget) is Some || setting(from_gc) is Some {
        State { diag: DiagView { undercount_enabled: true, ..diag }, ..s }.with_event(
            Event::UndercountEnabled {
                budget: diag.undercount_budget,
                from_gc: diag.undercount_from_gc,
            },
        )
    } else {
        State { diag, ..s }
    }
}

/// The value of a text that may be missing.
pub open spec fn text_value(text: Option<&str>) -> Option<Seq<char>> {
    match text {
        Some(text) => Some(text@),
        None => None,
    }
}

/// Adds the addresses of a list to the trace set.
fn add_addresses(lxr: &mut Lxr, list: &str)
    requires
        old(lxr)@.wf(),
    ensures
        final(lxr)@ == parts_added(old(lxr)@, comma_parts(list@)),
        final(lxr)@.wf(),
{
    let text: Vec<char> = characters(list);
    let parts: Vec<Vec<char>> = split_at_commas(&text);
    let ghost views = comma_parts(list@);
    let mut i: usize = 0;
    while i < parts.len()
        invariant
            i <= parts@.len(),
            parts@.map_values(|p: Vec<char>| p@) == views,
            lxr@.wf(),
            lxr@ == parts_added(old(lxr)@, views.take(i as int)),
        decreases parts@.len() - i,
    {
        proof {
            assert(views[i as int] == parts@[i as int]@);
            assert(views.take(i + 1).drop_last() =~= views.take(i as int));
            assert(views.take(i + 1).last() == views[i as int]);
        }
        let part: Vec<char> = trim(&parts[i]);
        if part.len() != 0 {
            match parse_hex(&part) {
                Ok(address) => {
                    let _ = rc_trace_add_addr(lxr, address);
                },
                Err(error) => {
                    lxr.log(Event::BadAddress { part: i, error });
                },
            }
        }
        i += 1;
    }
    proof {
        assert(views.take(i as int) =~= views);
    }
}

/// Initialises the trace set from the values of its environment variables: a
/// list of hexadecimal addresses, separated by commas, and a hexadecimal tag.
pub fn rc_trace_init_from_env(lxr: &mut Lxr, addresses: Option<&str>, tag: Option<&str>)
    requires
        old(lxr)@.wf(),
    ensures
        final(lxr)@ == trace_initialised(old(lxr)@, text_value(addresses), text_value(tag)),
        final(lxr)@.wf(),
{
    if let Some(list) = addresses {
        add_addresses(lxr, list);
    }
    if let Some(text) = tag {
        let trimmed_text: Vec<char> = trim(&characters(text));
        match parse_hex(&trimmed_text) {
            Ok(tag) => {
                let masked: usize = tag - tag % 16;
                lxr.diag.tag = masked;
                lxr.log(Event::TracingTag { tag: masked });
            },
            Err(error) => {
                lxr.log(Event::BadTag { error });
            },
        }
    }
}

/// The number in a setting, where it has one.
fn parse_setting(text: Option<&str>) -> (n: Option<usize>)
    ensures
        n == setting(text_value(text)),
{
    match text {
        Some(text) => match parse_number(&trim(&characters(text)), 10) {
            Ok(n) => Some(n),
            Err(_) => None,
        },
        None => None,
    }
}

/// Initialises the undercount detector from the values of its environment
/// variables: how many scans it may make, and the first collection in which it
/// makes them. Setting either enables it.
pub fn rc_undercount_init_from_env(lxr: &mut Lxr, budget: Option<&str>, from_gc: Option<&str>)
    requires
        old(lxr)@.wf(),
    ensures
        final(lxr)@ == undercount_initialised(
            old(lxr)@,
            text_value(budget),
            text_value(from_gc),
        ),
        final(lxr)@.wf(),
{
    let mut enabled: bool = false;
    match parse_setting(budget) {
        Some(n) => {
            lxr.diag.undercount_budget = n;
            enabled = true;
        },
        None => {
            lxr.diag.undercount_budget = DEFAULT_UNDERCOUNT_BUDGET;
        },
    }
    if let Some(n) = parse_setting(from_gc) {
        lxr.diag.undercount_from_gc = n;
        enabled = true;
    }
    if enabled {
        lxr.diag.undercount_enabled = true;
        let budget: usize = lxr.diag.undercount_budget;
        let from_gc: usize = lxr.diag.undercount_from_gc;
        lxr.log(Event::UndercountEnabled { budget, from_gc });
    }
}

} // verus!
