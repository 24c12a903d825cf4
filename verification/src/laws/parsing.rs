//! What holds of texts that are read.

use crate::parse::comma_parts;
use crate::parse::digit_value;
use crate::parse::digits_value;
use crate::parse::hex_number;
use crate::parse::is_space;
use crate::parse::number;
use crate::parse::parts_added;
use crate::parse::trace_initialised;
use crate::parse::trimmed;
use crate::parse::trimmed_end;
use crate::parse::trimmed_start;
use crate::parse::NumberError;
use crate::state::State;
use vstd::prelude::*;

verus! {

// Splitting and trimming.

/// The parts of two texts with a comma between them are the parts of the first and those
/// of the second. A text without a comma is one part.
pub proof fn comma_separates(a: Seq<char>, b: Seq<char>)
    ensures
        comma_parts(a.push(',') + b) == comma_parts(a) + comma_parts(b),
        comma_parts(a).len() >= 1,
        !a.contains(',') ==> comma_parts(a) == seq![a],
    decreases a.len() + b.len(),
{
    lemma_parts(a);
    if b.len() == 0 {
        assert(a.push(',') + b =~= a.push(','));
        assert(a.push(',').drop_last() =~= a);
        assert(comma_parts(a.push(',')) =~= comma_parts(a) + comma_parts(b));
    } else {
        let all = a.push(',') + b;
        comma_separates(a, b.drop_last());
        assert(all.drop_last() =~= a.push(',') + b.drop_last());
        assert(all.last() == b.last());
        lemma_parts(b.drop_last());
        let before = comma_parts(a) + comma_parts(b.drop_last());
        assert(before.last() == comma_parts(b.drop_last()).last());
        assert(before.drop_last() =~= comma_parts(a) + comma_parts(b.drop_last()).drop_last());
        assert(comma_parts(all) =~= comma_parts(a) + comma_parts(b));
    }
}

proof fn lemma_parts(a: Seq<char>)
    ensures
        comma_parts(a).len() >= 1,
        !a.contains(',') ==> comma_parts(a) == seq![a],
    decreases a.len(),
{
    if a.len() > 0 {
        lemma_parts(a.drop_last());
        if !a.contains(',') {
            assert(!a.drop_last().contains(',')) by {
                if a.drop_last().contains(',') {
                    let i = choose|i: int| 0 <= i < a.len() - 1 && a.drop_last()[i] == ',';
                    assert(a[i] == ',');
                }
            }
            assert(a[a.len() - 1] != ',');
            assert(a.drop_last().push(a.last()) =~= a);
            assert(comma_parts(a) =~= seq![a]);
        }
    } else {
        assert(a =~= Seq::<char>::empty());
    }
}

/// All characters are white space.
pub open spec fn blank(s: Seq<char>) -> bool {
    forall|i: int| 0 <= i < s.len() ==> is_space(#[trigger] s[i])
}

proof fn lemma_trimmed_start(s: Seq<char>)
    ensures
        exists|n: int|
            0 <= n <= s.len() && blank(#[trigger] s.take(n)) && trimmed_start(s) == s.skip(n),
        trimmed_start(s).len() > 0 ==> !is_space(trimmed_start(s)[0]),
    decreases s.len(),
{
    if s.len() > 0 && is_space(s[0]) {
        let rest = s.skip(1);
        lemma_trimmed_start(rest);
        let n = choose|n: int|
            0 <= n <= rest.len() && blank(#[trigger] rest.take(n)) && trimmed_start(rest)
                == rest.skip(n);
        assert(blank(s.take(n + 1))) by {
            assert forall|i: int| 0 <= i < n + 1 implies is_space(#[trigger] s.take(n + 1)[i]) by {
                if i > 0 {
                    assert(rest.take(n)[i - 1] == s[i]);
                }
            }
        }
        assert(rest.skip(n) =~= s.skip(n + 1));
    } else {
        assert(blank(s.take(0)));
        assert(s.skip(0) =~= s);
    }
}

proof fn lemma_trimmed_end(s: Seq<char>)
    ensures
        exists|n: int|
            0 <= n <= s.len() && blank(#[trigger] s.skip(n)) && trimmed_end(s) == s.take(n),
        trimmed_end(s).len() > 0 ==> !is_space(trimmed_end(s).last()),
        trimmed_end(s).len() > 0 ==> trimmed_end(s)[0] == s[0],
    decreases s.len(),
{
    if s.len() > 0 && is_space(s.last()) {
        let rest = s.drop_last();
        lemma_trimmed_end(rest);
        let n = choose|n: int|
            0 <= n <= rest.len() && blank(#[trigger] rest.skip(n)) && trimmed_end(rest)
                == rest.take(n);
        assert(blank(s.skip(n))) by {
            assert forall|i: int| 0 <= i < s.len() - n implies is_space(#[trigger] s.skip(n)[i]) by {
                if i < rest.len() - n {
                    assert(rest.skip(n)[i] == s.skip(n)[i]);
                } else {
                    assert(s.skip(n)[i] == s.last());
                }
            }
        }
        assert(rest.take(n) =~= s.take(n));
    } else {
        let n = s.len() as int;
        assert(blank(s.skip(n)));
        assert(s.take(n) =~= s);
    }
}

/// Trimming takes away white space at both ends, all of it, and nothing else.
pub proof fn trimming_takes_the_white_space(s: Seq<char>)
    ensures
        exists|m: int, n: int|
            0 <= m <= n <= s.len() && blank(s.take(m)) && blank(s.skip(n)) && trimmed(s)
                == #[trigger] s.subrange(m, n),
        trimmed(s).len() > 0 ==> !is_space(trimmed(s)[0]) && !is_space(trimmed(s).last()),
{
    lemma_trimmed_start(s);
    let start = trimmed_start(s);
    lemma_trimmed_end(start);
    let m = choose|m: int|
        0 <= m <= s.len() && blank(#[trigger] s.take(m)) && trimmed_start(s) == s.skip(m);
    let k = choose|k: int|
        0 <= k <= start.len() && blank(#[trigger] start.skip(k)) && trimmed_end(start)
            == start.take(k);
    let n = m + k;
    assert(start.skip(k) =~= s.skip(n));
    assert(start.take(k) =~= s.subrange(m, n));
    assert(trimmed(s) == s.subrange(m, n));
}

// Numbers.

/// Whether every character is a digit.
pub open spec fn all_digits(s: Seq<char>, radix: int) -> bool {
    forall|i: int| 0 <= i < s.len() ==> digit_value(#[trigger] s[i], radix) is Some
}

/// What digits come to, the last one least.
pub open spec fn positional(s: Seq<char>, radix: int) -> int
    decreases s.len(),
{
    if s.len() == 0 {
        0
    } else {
        positional(s.drop_last(), radix) * radix + digit_value(s.last(), radix)->0
    }
}

proof fn lemma_positional(s: Seq<char>, radix: int)
    requires
        2 <= radix <= 36,
        all_digits(s, radix),
    ensures
        0 <= positional(s, radix),
        digits_value(s, radix) == (if positional(s, radix) <= usize::MAX {
            Ok::<int, NumberError>(positional(s, radix))
        } else {
            Err::<int, NumberError>(NumberError::Overflow)
        }),
    decreases s.len(),
{
    if s.len() > 0 {
        let before = s.drop_last();
        assert(all_digits(before, radix)) by {
            assert forall|i: int| 0 <= i < before.len() implies digit_value(
                #[trigger] before[i],
                radix,
            ) is Some by {
                assert(before[i] == s[i]);
            }
        }
        lemma_positional(before, radix);
        assert(digit_value(s[s.len() - 1], radix) is Some);
        let n = positional(before, radix);
        let d = digit_value(s.last(), radix)->0;
        assert(0 <= d);
        assert(n * radix >= n && n * radix >= 0) by (nonlinear_arith)
            requires
                n >= 0,
                radix >= 2,
        ;
    }
}

proof fn lemma_bad_digit(s: Seq<char>, radix: int, i: int)
    requires
        0 <= i < s.len(),
        digit_value(s[i], radix) is None,
    ensures
        digits_value(s, radix) is Err,
    decreases s.len(),
{
    if i < s.len() - 1 {
        assert(s.drop_last()[i] == s[i]);
        lemma_bad_digit(s.drop_last(), radix, i);
    }
}

/// A text of digits stands for what its digits come to, whatever that is, as long as a
/// word can hold it; otherwise it is too large. With a plus sign in front it stands for the
/// same. A text with another character stands for no number, and neither does an empty one.
pub proof fn digits_are_a_number(s: Seq<char>, radix: int, i: int)
    requires
        2 <= radix <= 36,
    ensures
        s.len() > 0 && all_digits(s, radix) ==> {
            &&& number(s, radix) == (if positional(s, radix) <= usize::MAX {
                Ok::<int, NumberError>(positional(s, radix))
            } else {
                Err::<int, NumberError>(NumberError::Overflow)
            })
            &&& number(seq!['+'] + s, radix) == number(s, radix)
        },
        s.len() == 0 ==> number(s, radix) == Err::<int, NumberError>(NumberError::Empty),
        0 <= i < s.len() && digit_value(s[i], radix) is None && (i > 0 || s[0] != '+' || s.len()
            == 1) ==> number(s, radix) is Err,
{
    if s.len() > 0 && all_digits(s, radix) {
        lemma_positional(s, radix);
        assert(digit_value(s[0], radix) is Some);
        assert((seq!['+'] + s).skip(1) =~= s);
    }
    if 0 <= i < s.len() && digit_value(s[i], radix) is None && (i > 0 || s[0] != '+' || s.len()
        == 1) {
        if s[0] == '+' && s.len() > 1 {
            assert(s.skip(1)[i - 1] == s[i]);
            lemma_bad_digit(s.skip(1), radix, i - 1);
        } else {
            lemma_bad_digit(s, radix, i);
        }
    }
}

/// The digits: ten figures, and letters after them, in either case.
pub proof fn digits_are_figures_and_letters(c: char, radix: int)
    requires
        2 <= radix <= 36,
    ensures
        '0' <= c <= '9' ==> digit_value(c, radix) == (if c as int - 48 < radix {
            Some(c as int - 48)
        } else {
            None
        }),
        'a' <= c <= 'z' ==> digit_value(c, radix) == (if c as int - 87 < radix {
            Some(c as int - 87)
        } else {
            None
        }),
        'A' <= c <= 'Z' ==> digit_value(c, radix) == (if c as int - 55 < radix {
            Some(c as int - 55)
        } else {
            None
        }),
        !('0' <= c <= '9') && !('a' <= c <= 'z') && !('A' <= c <= 'Z') ==> digit_value(c, radix)
            is None,
{
}

/// A hexadecimal number may start with `0x` or `0X`, which makes no difference.
pub proof fn hexadecimal_prefix_is_ignored(s: Seq<char>)
    ensures
        hex_number(seq!['0', 'x'] + s) == number(s, 16),
        hex_number(seq!['0', 'X'] + s) == number(s, 16),
        all_digits(s, 16) ==> hex_number(s) == number(s, 16),
{
    assert((seq!['0', 'x'] + s).skip(2) =~= s);
    assert((seq!['0', 'X'] + s).skip(2) =~= s);
    if all_digits(s, 16) && s.len() >= 2 {
        assert(digit_value(s[1], 16) is Some);
    }
}

// The trace settings.

/// Whether a part of the address list stands for an address.
pub open spec fn stands_for(part: Seq<char>, address: usize) -> bool {
    hex_number(trimmed(part)) matches Ok(n) && n as usize == address
}

proof fn lemma_parts_added(s: State, parts: Seq<Seq<char>>, i: int, address: usize)
    ensures
        ({
            let t = parts_added(s, parts);
            &&& t == (State { diag: t.diag, ..s })
            &&& s.diag.addresses.contains(address) ==> t.diag.addresses.contains(address)
            &&& s.diag.addresses.len() <= t.diag.addresses.len()
            &&& 0 <= i < parts.len() && trimmed(parts[i]).len() > 0 && hex_number(
                trimmed(parts[i]),
            ) == Ok::<int, NumberError>(address as int) ==> t.diag.addresses.contains(address)
                || t.diag.addresses.len() >= 16
            &&& t.diag.addresses.contains(address) && !s.diag.addresses.contains(address)
                ==> exists|k: int|
                0 <= k < parts.len() && stands_for(#[trigger] parts[k], address)
            &&& t.diag.tag == s.diag.tag
        }),
    decreases parts.len(),
{
    if parts.len() > 0 {
        let before = parts.drop_last();
        lemma_parts_added(s, before, i, address);
        let u = parts_added(s, before);
        let t = parts_added(s, parts);
        let last = parts.last();
        assert(parts[parts.len() - 1] == last);
        if trimmed(last).len() > 0 {
            if let Ok(n) = hex_number(trimmed(last)) {
                if u.diag.addresses.len() < 16 {
                    assert(t.diag.addresses == u.diag.addresses.push(n as usize));
                    if u.diag.addresses.contains(address) {
                        let k = choose|k: int|
                            0 <= k < u.diag.addresses.len() && u.diag.addresses[k] == address;
                        assert(t.diag.addresses[k] == address);
                    }
                    assert(t.diag.addresses[u.diag.addresses.len() as int] == n as usize);
                }
            }
        }
        if 0 <= i < before.len() {
            assert(before[i] == parts[i]);
        }
        if t.diag.addresses.contains(address) && !s.diag.addresses.contains(address) {
            if u.diag.addresses.contains(address) {
                let k = choose|k: int|
                    0 <= k < before.len() && stands_for(#[trigger] before[k], address);
                assert(parts[k] == before[k]);
            } else {
                assert(stands_for(parts[parts.len() - 1], address));
            }
        }
    }
}

/// Every part of the address list that is a hexadecimal number is traced, unless the trace
/// set is full, and nothing else is that was not. Without a tag setting the tag stays.
pub proof fn listed_addresses_are_traced(s: State, text: Seq<char>, i: int, address: usize)
    ensures
        ({
            let t = trace_initialised(s, Some(text), None);
            let parts = comma_parts(text);
            &&& 0 <= i < parts.len() && trimmed(parts[i]).len() > 0 && hex_number(
                trimmed(parts[i]),
            ) == Ok::<int, NumberError>(address as int) ==> t.is_traced_address(address)
                || t.diag.addresses.len() >= 16
            &&& t.is_traced_address(address) && !s.is_traced_address(address) ==> exists|k: int|
                0 <= k < parts.len() && stands_for(#[trigger] parts[k], address)
            &&& s.is_traced_address(address) ==> t.is_traced_address(address)
            &&& t.diag.tag == s.diag.tag
            &&& t == (State { diag: t.diag, ..s })
        }),
{
    lemma_parts_added(s, comma_parts(text), i, address);
}

/// The tag setting traces the objects with that tag; the low four bits make no difference,
/// neither in the setting nor in the object. A setting that is no number changes no tag.
/// Without an address list no address is added.
pub proof fn tagged_objects_are_traced(s: State, text: Seq<char>, o: crate::object::ObjectReference)
    ensures
        ({
            let t = trace_initialised(s, None, Some(text));
            &&& t.diag.addresses == s.diag.addresses
            &&& t == (State { diag: t.diag, ..s })
            &&& hex_number(trimmed(text)) is Err ==> t.diag.tag == s.diag.tag
            &&& hex_number(trimmed(text)) matches Ok(n) ==> (0 <= n <= usize::MAX ==> {
                &&& t.diag.tag == n / 16 * 16
                &&& n >= 16 && o.address >= 8 && t.mapped((o.address - 8) as usize) && t.word(
                    (o.address - 8) as usize,
                ) as int / 16 == n / 16 ==> t.is_traced(o)
            })
        }),
{
    let t = trace_initialised(s, None, Some(text));
    if let Ok(n) = hex_number(trimmed(text)) {
        if 0 <= n <= usize::MAX {
            assert(n - n % 16 == n / 16 * 16);
            assert(t.diag.tag == n / 16 * 16);
        }
    }
}

} // verus!
