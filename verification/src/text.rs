//! Reading and writing plain text.

use vstd::prelude::*;
use vstd::string::*;
use vstd::utf8::encode_utf8_decode_utf8;

verus! {

/// `String::push` appends one character.
pub assume_specification[ String::push ](s: &mut String, c: char)
    ensures
        final(s)@ == old(s)@.push(c),
;

/// The characters of a text.
pub fn chars_of(s: &str) -> (chars: Vec<char>)
    ensures
        chars@ == s@,
{
    let mut chars: Vec<char> = Vec::new();
    for c in it: s.chars()
        invariant
            chars@ == s@.take(it.index()),
            it.seq() == s@,
    {
        chars.push(c);
        assert(s@.take(it.index() + 1) == s@.take(it.index()).push(s@[it.index()]));
    }
    assert(s@.take(s@.len() as int) == s@);
    chars
}

/// The text made of `chars`.
pub fn string_of(chars: &Vec<char>) -> (s: String)
    ensures
        s@ == chars@,
{
    let mut s = String::new();
    let mut i: usize = 0;
    while i < chars.len()
        invariant
            i <= chars@.len(),
            s@ == chars@.take(i as int),
        decreases chars@.len() - i,
    {
        assert(chars@.take(i + 1) == chars@.take(i as int).push(chars@[i as int]));
        s.push(chars[i]);
        i += 1;
    }
    assert(chars@.take(i as int) == chars@);
    s
}

/// Whether two byte strings are the same.
pub fn bytes_eq(a: &[u8], b: &[u8]) -> (same: bool)
    ensures
        same == (a@ == b@),
{
    if a.len() != b.len() {
        return false;
    }
    let mut i: usize = 0;
    while i < a.len()
        invariant
            a@.len() == b@.len(),
            i <= a@.len(),
            a@.take(i as int) == b@.take(i as int),
        decreases a@.len() - i,
    {
        if a[i] != b[i] {
            assert(a@[i as int] != b@[i as int]);
            return false;
        }
        assert(a@.take(i + 1) == a@.take(i as int).push(a@[i as int]));
        assert(b@.take(i + 1) == b@.take(i as int).push(b@[i as int]));
        i += 1;
    }
    assert(a@.take(i as int) == a@);
    assert(b@.take(i as int) == b@);
    true
}

/// Whether two texts are the same.
pub fn str_eq(a: &str, b: &str) -> (same: bool)
    ensures
        same == (a@ == b@),
{
    proof {
        encode_utf8_decode_utf8(a@);
        encode_utf8_decode_utf8(b@);
    }
    bytes_eq(a.as_bytes(), b.as_bytes())
}

/// The fields of `s`: every `sep` ends one field and starts the next.
pub open spec fn fields(s: Seq<char>, sep: char) -> Seq<Seq<char>>
    decreases s.len(),
{
    if s.len() == 0 {
        seq![Seq::<char>::empty()]
    } else {
        let before = fields(s.drop_last(), sep);
        if s.last() == sep {
            before.push(Seq::<char>::empty())
        } else {
            before.drop_last().push(before.last().push(s.last()))
        }
    }
}

/// There is always at least one field.
pub proof fn lemma_fields_nonempty(s: Seq<char>, sep: char)
    ensures
        fields(s, sep).len() >= 1,
    decreases s.len(),
{
    if s.len() > 0 {
        lemma_fields_nonempty(s.drop_last(), sep);
    }
}

/// What the texts of a list say.
pub open spec fn texts(v: Seq<String>) -> Seq<Seq<char>> {
    v.map_values(|s: String| s@)
}

/// Splits a text into its fields.
pub fn split(s: &str, sep: char) -> (parts: Vec<String>)
    ensures
        texts(parts@) == fields(s@, sep),
        parts@.len() >= 1,
{
    let chars = chars_of(s);
    let mut parts: Vec<String> = Vec::new();
    let mut field = String::new();
    let mut i: usize = 0;
    assert(texts(parts@).push(field@) == fields(s@.take(0), sep));
    while i < chars.len()
        invariant
            chars@ == s@,
            i <= chars@.len(),
            texts(parts@).push(field@) == fields(s@.take(i as int), sep),
        decreases chars@.len() - i,
    {
        let ghost before = texts(parts@).push(field@);
        assert(s@.take(i + 1).drop_last() == s@.take(i as int));
        assert(before.drop_last() == texts(parts@));
        let c = chars[i];
        if c == sep {
            let ghost old_parts = parts@;
            parts.push(field);
            assert(texts(parts@) == before);
            field = String::new();
        } else {
            field.push(c);
        }
        i += 1;
    }
    assert(s@.take(i as int) == s@);
    let ghost old_parts = parts@;
    let ghost last = field@;
    parts.push(field);
    assert(texts(parts@) == texts(old_parts).push(last));
    parts
}

/// `c` occurs in `s` at `i`, and not before.
pub open spec fn first_at(s: Seq<char>, c: char, i: int) -> bool {
    &&& 0 <= i < s.len()
    &&& s[i] == c
    &&& forall|j: int| 0 <= j < i ==> s[j] != c
}

/// What stands before and after the first `sep` in `s`, if there is one.
pub open spec fn cut(s: Seq<char>, sep: char) -> Option<(Seq<char>, Seq<char>)> {
    if s.contains(sep) {
        let i = choose|i: int| first_at(s, sep, i);
        Some((s.take(i), s.skip(i + 1)))
    } else {
        None
    }
}

/// Splits a text at the first `sep`.
pub fn split_once(s: &str, sep: char) -> (halves: Option<(String, String)>)
    ensures
        match halves {
            Some((before, after)) => cut(s@, sep) == Some((before@, after@)),
            None => cut(s@, sep) is None,
        },
{
    let chars = chars_of(s);
    let mut before = String::new();
    let mut i: usize = 0;
    while i < chars.len()
        invariant
            chars@ == s@,
            i <= chars@.len(),
            before@ == s@.take(i as int),
            forall|j: int| 0 <= j < i ==> s@[j] != sep,
        decreases chars@.len() - i,
    {
        if chars[i] == sep {
            assert(first_at(s@, sep, i as int));
            let at: usize = i;
            let mut after = String::new();
            i += 1;
            assert(s@.subrange(at + 1, i as int) == after@);
            while i < chars.len()
                invariant
                    chars@ == s@,
                    at < i <= chars@.len(),
                    after@ == s@.subrange(at + 1, i as int),
                decreases chars@.len() - i,
            {
                assert(s@.subrange(at + 1, i + 1) == s@.subrange(at + 1, i as int).push(
                    s@[i as int],
                ));
                after.push(chars[i]);
                i += 1;
            }
            assert(after@ == s@.skip(at + 1));
            assert(s@.contains(sep));
            let ghost k = choose|k: int| first_at(s@, sep, k);
            assert(first_at(s@, sep, k));
            assert(k == at);
            return Some((before, after));
        }
        assert(s@.take(i + 1) == s@.take(i as int).push(s@[i as int]));
        before.push(chars[i]);
        i += 1;
    }
    None
}

/// Whether `c` occurs in a text.
pub fn contains_char(s: &str, c: char) -> (found: bool)
    ensures
        found == s@.contains(c),
{
    match split_once(s, c) {
        Some(_) => true,
        None => false,
    }
}

/// `part` stands in `s` from `at` on.
pub open spec fn stands_at<T>(s: Seq<T>, part: Seq<T>, at: int) -> bool {
    0 <= at && at + part.len() <= s.len() && s.subrange(at, at + part.len()) == part
}

/// `part` occurs somewhere in `s`.
pub open spec fn occurs(s: Seq<char>, part: Seq<char>) -> bool {
    exists|at: int| stands_at(s, part, at)
}

/// Whether `part` stands in `s` from `at` on.
fn is_at(s: &Vec<char>, part: &Vec<char>, at: usize) -> (b: bool)
    ensures
        b == stands_at(s@, part@, at as int),
{
    let len: usize = s.len();
    if part.len() > len || at > len - part.len() {
        return false;
    }
    let ghost here = s@.subrange(at as int, at + part@.len());
    let mut k: usize = 0;
    while k < part.len()
        invariant
            at + part@.len() <= len,
            len == s@.len(),
            here == s@.subrange(at as int, at + part@.len()),
            k <= part@.len(),
            forall|j: int| 0 <= j < k ==> here[j] == part@[j],
        decreases part@.len() - k,
    {
        if s[at + k] != part[k] {
            assert(here[k as int] != part@[k as int]);
            return false;
        }
        k += 1;
    }
    assert(here == part@);
    true
}

/// Whether `part` occurs in a text.
pub fn contains_text(s: &str, part: &str) -> (found: bool)
    ensures
        found == occurs(s@, part@),
{
    let chars = chars_of(s);
    let sought = chars_of(part);
    let mut at: usize = 0;
    while at < chars.len()
        invariant
            chars@ == s@,
            sought@ == part@,
            at <= chars@.len(),
            forall|k: int| 0 <= k < at ==> !stands_at(s@, part@, k),
        decreases chars@.len() - at,
    {
        if is_at(&chars, &sought, at) {
            assert(stands_at(s@, part@, at as int));
            return true;
        }
        at += 1;
    }
    is_at(&chars, &sought, at)
}

/// Whether a text begins with `prefix`.
pub fn starts_with(s: &str, prefix: &str) -> (b: bool)
    ensures
        b == stands_at(s@, prefix@, 0),
{
    let s = chars_of(s);
    let prefix = chars_of(prefix);
    is_at(&s, &prefix, 0)
}

/// Whether a text ends with `suffix`.
pub fn ends_with(s: &str, suffix: &str) -> (b: bool)
    ensures
        b == stands_at(s@, suffix@, s@.len() - suffix@.len()),
{
    let s = chars_of(s);
    let suffix = chars_of(suffix);
    suffix.len() <= s.len() && is_at(&s, &suffix, s.len() - suffix.len())
}

/// `s`, read from left to right, with every `part` in it replaced by `by`.
pub open spec fn replaced(s: Seq<char>, part: Seq<char>, by: Seq<char>) -> Seq<char>
    decreases s.len(),
{
    if part.len() == 0 || s.len() < part.len() {
        s
    } else if stands_at(s, part, 0) {
        by + replaced(s.skip(part.len() as int), part, by)
    } else {
        seq![s[0]] + replaced(s.skip(1), part, by)
    }
}

/// Replaces every `part` in a text by `by`.
pub fn replace(s: &str, part: &str, by: &str) -> (r: String)
    requires
        part@.len() > 0,
    ensures
        r@ == replaced(s@, part@, by@),
{
    let chars = chars_of(s);
    let pat = chars_of(part);
    let mut r = String::new();
    let mut i: usize = 0;
    assert(s@.skip(0) == s@);
    while i < chars.len()
        invariant
            chars@ == s@,
            pat@ == part@,
            pat@.len() > 0,
            i <= chars@.len(),
            r@ + replaced(s@.skip(i as int), part@, by@) == replaced(s@, part@, by@),
        decreases chars@.len() - i,
    {
        let ghost rest = s@.skip(i as int);
        let ghost sofar = r@;
        assert(stands_at(s@, part@, i as int) == stands_at(rest, part@, 0)) by {
            if i + part@.len() <= s@.len() {
                assert(rest.subrange(0, part@.len() as int) == s@.subrange(
                    i as int,
                    i + part@.len(),
                ));
            }
        }
        if is_at(&chars, &pat, i) {
            r.append(by);
            i += pat.len();
            assert(rest.skip(part@.len() as int) == s@.skip(i as int));
            assert(sofar + (by@ + replaced(s@.skip(i as int), part@, by@)) == (sofar + by@)
                + replaced(s@.skip(i as int), part@, by@));
        } else {
            r.push(chars[i]);
            i += 1;
            assert(rest.skip(1) == s@.skip(i as int));
            assert(rest == seq![rest[0]] + rest.skip(1));
            assert(replaced(rest, part@, by@) == seq![rest[0]] + replaced(
                rest.skip(1),
                part@,
                by@,
            )) by {
                if rest.len() < part@.len() {
                    assert(replaced(rest.skip(1), part@, by@) == rest.skip(1));
                }
            }
            assert(sofar + (seq![rest[0]] + replaced(s@.skip(i as int), part@, by@)) == sofar.push(
                rest[0],
            ) + replaced(s@.skip(i as int), part@, by@));
        }
    }
    assert(r@ + s@.skip(i as int) == r@);
    r
}

/// The value of a decimal digit.
pub open spec fn digit(c: char) -> nat {
    (c as int - '0' as int) as nat
}

pub open spec fn is_digit(c: char) -> bool {
    '0' <= c <= '9'
}

/// Every character is a decimal digit.
pub open spec fn all_digits(s: Seq<char>) -> bool {
    forall|i: int| 0 <= i < s.len() ==> is_digit(#[trigger] s[i])
}

/// The number that decimal digits write.
pub open spec fn decimal_value(s: Seq<char>) -> nat
    decreases s.len(),
{
    if s.len() == 0 {
        0
    } else {
        decimal_value(s.drop_last()) * 10 + digit(s.last())
    }
}

/// The digits of a number that may be written with a leading plus.
pub open spec fn unsigned_digits(s: Seq<char>) -> Seq<char> {
    if s.len() > 0 && s[0] == '+' {
        s.skip(1)
    } else {
        s
    }
}

/// The number from 0 to `max` that `s` writes in decimal digits, with or without a leading plus.
pub open spec fn unsigned(s: Seq<char>, max: nat) -> Option<nat> {
    let digits = unsigned_digits(s);
    if digits.len() > 0 && all_digits(digits) && decimal_value(digits) <= max {
        Some(decimal_value(digits))
    } else {
        None
    }
}

/// Adding digits on the right never makes a number smaller.
proof fn lemma_decimal_grows(s: Seq<char>, i: int)
    requires
        0 <= i <= s.len(),
    ensures
        decimal_value(s.take(i)) <= decimal_value(s),
    decreases s.len() - i,
{
    if i < s.len() {
        lemma_decimal_grows(s, i + 1);
        assert(s.take(i + 1).drop_last() == s.take(i));
    } else {
        assert(s.take(i) == s);
    }
}

/// Reads a number from 0 to `max`.
pub fn parse_unsigned(s: &str, max: u64) -> (n: Option<u64>)
    ensures
        match n {
            Some(v) => unsigned(s@, max as nat) == Some(v as nat),
            None => unsigned(s@, max as nat) is None,
        },
{
    let chars = chars_of(s);
    let start: usize = if chars.len() > 0 && chars[0] == '+' {
        1
    } else {
        0
    };
    let ghost digits = unsigned_digits(s@);
    assert(digits == s@.skip(start as int));
    if start == chars.len() {
        return None;
    }
    let mut value: u64 = 0;
    let mut i: usize = start;
    while i < chars.len()
        invariant
            chars@ == s@,
            start <= i <= chars@.len(),
            start < chars@.len(),
            digits == unsigned_digits(s@),
            digits == s@.skip(start as int),
            value <= max,
            value == decimal_value(digits.take(i - start)),
            forall|j: int| 0 <= j < i - start ==> is_digit(#[trigger] digits[j]),
        decreases chars@.len() - i,
    {
        let c = chars[i];
        assert(digits[i - start] == c);
        if !('0' <= c && c <= '9') {
            assert(!is_digit(digits[i - start]));
            return None;
        }
        let d: u64 = c as u64 - '0' as u64;
        let ghost next = digits.take(i - start + 1);
        proof {
            assert(next.drop_last() == digits.take(i - start));
            assert(next.last() == c);
            assert(decimal_value(next) == value * 10 + d);
            lemma_decimal_grows(digits, i - start + 1);
        }
        if d > max || value > (max - d) / 10 {
            return None;
        }
        value = value * 10 + d;
        i += 1;
    }
    assert(digits.take(i - start) == digits);
    Some(value)
}

/// The digit of a number below ten.
pub open spec fn digit_char(n: nat) -> char {
    if n == 0 {
        '0'
    } else if n == 1 {
        '1'
    } else if n == 2 {
        '2'
    } else if n == 3 {
        '3'
    } else if n == 4 {
        '4'
    } else if n == 5 {
        '5'
    } else if n == 6 {
        '6'
    } else if n == 7 {
        '7'
    } else if n == 8 {
        '8'
    } else {
        '9'
    }
}

/// A number written in decimal digits, without leading zeros.
pub open spec fn decimal(n: nat) -> Seq<char>
    decreases n,
{
    if n < 10 {
        seq![digit_char(n)]
    } else {
        decimal(n / 10).push(digit_char(n % 10))
    }
}

fn write_digit(n: u64) -> (c: char)
    requires
        n < 10,
    ensures
        c == digit_char(n as nat),
{
    match n {
        0 => '0',
        1 => '1',
        2 => '2',
        3 => '3',
        4 => '4',
        5 => '5',
        6 => '6',
        7 => '7',
        8 => '8',
        _ => '9',
    }
}

/// Writes a number in decimal digits.
pub fn write_decimal(n: u64) -> (s: String)
    ensures
        s@ == decimal(n as nat),
    decreases n,
{
    if n < 10 {
        let mut s = String::new();
        s.push(write_digit(n));
        assert(s@ == seq![digit_char(n as nat)]);
        s
    } else {
        let mut s = write_decimal(n / 10);
        s.push(write_digit(n % 10));
        s
    }
}

/// Reading back a number that was written gives the number.
pub proof fn law_written_number_reads_back(n: nat, max: nat)
    requires
        n <= max,
    ensures
        unsigned(decimal(n), max) == Some(n),
{
    lemma_decimal_digits(n);
}

proof fn lemma_decimal_digits(n: nat)
    ensures
        decimal(n).len() > 0,
        all_digits(decimal(n)),
        decimal_value(decimal(n)) == n,
        decimal(n)[0] != '+',
    decreases n,
{
    if n < 10 {
        let s = decimal(n);
        assert(s.drop_last() == Seq::<char>::empty());
        assert(decimal_value(s.drop_last()) == 0);
    } else {
        lemma_decimal_digits(n / 10);
        assert(decimal(n).drop_last() == decimal(n / 10));
    }
}

/// Texts with a separator between each and the next.
pub open spec fn joined_by(parts: Seq<Seq<char>>, sep: char) -> Seq<char>
    decreases parts.len(),
{
    if parts.len() == 0 {
        Seq::empty()
    } else if parts.len() == 1 {
        parts[0]
    } else {
        joined_by(parts.drop_last(), sep).push(sep) + parts.last()
    }
}

/// The fields of a text are what stands between its separators: joined by them they are the text
/// again, and none of them holds one.
pub proof fn law_fields_join_back(s: Seq<char>, sep: char)
    ensures
        joined_by(fields(s, sep), sep) == s,
        forall|i: int| 0 <= i < fields(s, sep).len() ==> !(#[trigger] fields(s, sep)[i]).contains(sep),
        fields(s, sep).len() >= 1,
    decreases s.len(),
{
    lemma_fields_nonempty(s, sep);
    if s.len() > 0 {
        let rest = s.drop_last();
        let before = fields(rest, sep);
        let all = fields(s, sep);
        law_fields_join_back(rest, sep);
        lemma_fields_nonempty(rest, sep);
        assert(s == rest.push(s.last()));
        if s.last() == sep {
            assert(all.drop_last() == before);
            assert(joined_by(all, sep) == joined_by(before, sep).push(sep) + Seq::<char>::empty());
            assert forall|i: int| 0 <= i < all.len() implies !(#[trigger] all[i]).contains(sep) by {
                if i < before.len() {
                    assert(all[i] == before[i]);
                }
            }
        } else {
            let last = before.last().push(s.last());
            assert(all.drop_last() == before.drop_last());
            assert(all.last() == last);
            if before.len() == 1 {
                assert(joined_by(all, sep) == last);
            } else {
                let front = joined_by(before.drop_last(), sep).push(sep);
                assert(front + last == (front + before.last()).push(s.last()));
            }
            assert forall|i: int| 0 <= i < all.len() implies !(#[trigger] all[i]).contains(sep) by {
                if i < before.len() - 1 {
                    assert(all[i] == before[i]);
                } else {
                    assert(!before[before.len() - 1].contains(sep));
                    if last.contains(sep) {
                        let k = choose|k: int| 0 <= k < last.len() && last[k] == sep;
                        assert(before.last()[k] == sep);
                    }
                }
            }
        }
    }
}

/// A text without a separator is one field.
pub proof fn lemma_one_field(s: Seq<char>, sep: char)
    requires
        !s.contains(sep),
    ensures
        fields(s, sep) == seq![s],
    decreases s.len(),
{
    if s.len() > 0 {
        let rest = s.drop_last();
        assert forall|i: int| 0 <= i < rest.len() implies rest[i] != sep by {
            assert(s[i] == rest[i]);
        }
        lemma_one_field(rest, sep);
        assert(s[s.len() - 1] == s.last());
        assert(rest.push(s.last()) == s);
    } else {
        assert(s == Seq::<char>::empty());
    }
}

/// The fields of two texts with a separator between them are those of the one, then those of the
/// other.
pub proof fn law_fields_of_joined(a: Seq<char>, b: Seq<char>, sep: char)
    ensures
        fields(a.push(sep) + b, sep) == fields(a, sep) + fields(b, sep),
    decreases b.len(),
{
    let s = a.push(sep) + b;
    if b.len() == 0 {
        assert(s == a.push(sep));
        assert(s.drop_last() == a);
        assert(fields(b, sep) == seq![Seq::<char>::empty()]);
    } else {
        let rest = b.drop_last();
        law_fields_of_joined(a, rest, sep);
        lemma_fields_nonempty(rest, sep);
        assert(s.drop_last() == a.push(sep) + rest);
        assert(s.last() == b.last());
        let before = fields(a, sep) + fields(rest, sep);
        assert(before.last() == fields(rest, sep).last());
        assert(before.drop_last() == fields(a, sep) + fields(rest, sep).drop_last());
    }
}

/// A text is cut where its first separator stands: what comes before holds none, and the two parts
/// with a separator between them are the text. It cannot be cut where it holds none.
pub proof fn law_cut_at_first(s: Seq<char>, sep: char)
    ensures
        match cut(s, sep) {
            Some((before, after)) => s == before.push(sep) + after && !before.contains(sep),
            None => !s.contains(sep),
        },
{
    if s.contains(sep) {
        lemma_first_exists(s, sep, choose|i: int| 0 <= i < s.len() && s[i] == sep);
        let i = choose|i: int| first_at(s, sep, i);
        assert(s == s.take(i).push(sep) + s.skip(i + 1));
        assert forall|j: int| 0 <= j < i implies s.take(i)[j] != sep by {}
    }
}

proof fn lemma_first_exists(s: Seq<char>, sep: char, i: int)
    requires
        0 <= i < s.len(),
        s[i] == sep,
    ensures
        exists|k: int| first_at(s, sep, k),
    decreases i,
{
    if !first_at(s, sep, i) {
        let j = choose|j: int| 0 <= j < i && s[j] == sep;
        lemma_first_exists(s, sep, j);
    }
}

/// What a number is written with is digits, so it holds no separator that is none.
pub proof fn lemma_decimal_holds_no_separator(n: nat, sep: char)
    requires
        !is_digit(sep),
    ensures
        !decimal(n).contains(sep),
        decimal(n).len() > 0,
{
    lemma_decimal_digits(n);
    let s = decimal(n);
    if s.contains(sep) {
        let k = choose|k: int| 0 <= k < s.len() && s[k] == sep;
        assert(is_digit(s[k]));
    }
}

/// Replacing leaves a text as it is where the part that is sought does not occur.
pub proof fn law_replacing_nothing(s: Seq<char>, part: Seq<char>, by: Seq<char>)
    requires
        !occurs(s, part),
    ensures
        replaced(s, part, by) == s,
    decreases s.len(),
{
    if part.len() > 0 && s.len() >= part.len() {
        let rest = s.skip(1);
        assert(!stands_at(s, part, 0));
        assert forall|at: int| !stands_at(rest, part, at) by {
            if stands_at(rest, part, at) {
                assert(rest.subrange(at, at + part.len()) == s.subrange(
                    at + 1,
                    at + 1 + part.len(),
                ));
                assert(stands_at(s, part, at + 1));
            }
        }
        law_replacing_nothing(rest, part, by);
        assert(s == seq![s[0]] + rest);
    }
}

/// Replacing takes out the first of what is sought, puts the other in its place, and goes on behind
/// it: where `before` holds it neither in itself nor with what follows.
pub proof fn law_replacing_the_first(
    before: Seq<char>,
    part: Seq<char>,
    by: Seq<char>,
    after: Seq<char>,
)
    requires
        part.len() > 0,
        forall|at: int| 0 <= at < before.len() ==> !stands_at(before + part + after, part, at),
    ensures
        replaced(before + part + after, part, by) == before + by + replaced(after, part, by),
    decreases before.len(),
{
    let s = before + part + after;
    if before.len() == 0 {
        assert(s.subrange(0, part.len() as int) == part);
        assert(s.skip(part.len() as int) == after);
        assert(before + by == by);
    } else {
        let rest = before.skip(1);
        let tail = rest + part + after;
        assert(s.skip(1) == tail);
        assert(s[0] == before[0]);
        assert(!stands_at(s, part, 0));
        assert forall|at: int| 0 <= at < rest.len() implies !stands_at(tail, part, at) by {
            if stands_at(tail, part, at) {
                assert(tail.subrange(at, at + part.len()) == s.subrange(
                    at + 1,
                    at + 1 + part.len(),
                ));
                assert(stands_at(s, part, at + 1));
            }
        }
        law_replacing_the_first(rest, part, by, after);
        assert(seq![before[0]] + (rest + by + replaced(after, part, by)) == before + by + replaced(
            after,
            part,
            by,
        ));
    }
}

/// A text is cut at the separator behind a part that does not hold it.
pub proof fn law_cut_of_joined(a: Seq<char>, b: Seq<char>, sep: char)
    requires
        !a.contains(sep),
    ensures
        cut(a.push(sep) + b, sep) == Some((a, b)),
{
    let s = a.push(sep) + b;
    law_cut_at_first(s, sep);
    assert(s[a.len() as int] == sep);
    assert(s.contains(sep));
    match cut(s, sep) {
        Some((before, after)) => {
            let n = a.len() as int;
            let m = before.len() as int;
            assert((before.push(sep) + after)[m] == sep);
            if m < n {
                assert(s[m] == a[m]);
                assert(a.contains(sep));
            }
            if n < m {
                assert((before.push(sep) + after)[n] == before[n]);
                assert(before.contains(sep));
            }
            assert(before == a) by {
                assert forall|i: int| 0 <= i < n implies before[i] == a[i] by {
                    assert((before.push(sep) + after)[i] == before[i]);
                    assert(s[i] == a[i]);
                }
            }
            assert(after == b) by {
                assert(after.len() == b.len());
                assert forall|i: int| 0 <= i < b.len() implies after[i] == b[i] by {
                    assert((before.push(sep) + after)[m + 1 + i] == after[i]);
                    assert(s[n + 1 + i] == b[i]);
                }
            }
        },
        None => {},
    }
}

/// Every digit makes a number ten times as large, and adds its own value.
pub proof fn law_digits_count_tenfold(s: Seq<char>, c: char)
    ensures
        decimal_value(s.push(c)) == decimal_value(s) * 10 + digit(c),
        decimal_value(Seq::empty()) == 0,
{
    assert(s.push(c).drop_last() == s);
}

/// A number is read of digits alone, with a plus sign before them at most, and only if it is not too
/// large.
pub proof fn law_only_numbers_are_read(s: Seq<char>, max: nat)
    ensures
        match unsigned(s, max) {
            Some(n) => n <= max && s.len() > 0 && (s[0] == '+' || '0' <= s[0] <= '9') && forall|
                i: int,
            |
                1 <= i < s.len() ==> '0' <= #[trigger] s[i] <= '9',
            None => true,
        },
        s.len() == 0 ==> unsigned(s, max) is None,
        (exists|i: int| 1 <= i < s.len() && !('0' <= #[trigger] s[i] <= '9')) ==> unsigned(s, max)
            is None,
{
    let digits = unsigned_digits(s);
    if unsigned(s, max) is Some {
        assert forall|i: int| 1 <= i < s.len() implies '0' <= #[trigger] s[i] <= '9' by {
            if s[0] == '+' {
                assert(digits[i - 1] == s[i]);
                assert(is_digit(digits[i - 1]));
            } else {
                assert(is_digit(digits[i]));
            }
        }
        if s[0] != '+' {
            assert(is_digit(digits[0]));
        }
    }
}

} // verus!
