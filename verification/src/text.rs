//! Text helpers over the characters of a string, and the few standard
//! library operations on strings that the rest of the crate relies on.

use vstd::prelude::*;

verus! {

/// `pattern` stands in `text` at character `at`.
pub open spec fn occurs_at(text: Seq<char>, pattern: Seq<char>, at: int) -> bool {
    &&& 0 <= at
    &&& at + pattern.len() <= text.len()
    &&& text.subrange(at, at + pattern.len()) =~= pattern
}

/// `pattern` stands somewhere in `text`.
pub open spec fn contains_text(text: Seq<char>, pattern: Seq<char>) -> bool {
    exists|at: int| occurs_at(text, pattern, at)
}

/// `text` with each occurrence of `pattern`, taken from the left and without
/// overlaps, replaced by `with`.
pub open spec fn replaced(text: Seq<char>, pattern: Seq<char>, with: Seq<char>) -> Seq<char>
    decreases text.len(),
{
    if pattern.len() == 0 || text.len() < pattern.len() {
        text
    } else if occurs_at(text, pattern, 0) {
        with + replaced(text.skip(pattern.len() as int), pattern, with)
    } else {
        seq![text[0]] + replaced(text.skip(1), pattern, with)
    }
}

/// `text` without the `c`s it begins with.
pub open spec fn without_leading(text: Seq<char>, c: char) -> Seq<char>
    decreases text.len(),
{
    if text.len() > 0 && text[0] == c {
        without_leading(text.skip(1), c)
    } else {
        text
    }
}

/// `text` up to its first `c`, or all of it where it holds none.
pub open spec fn before_first(text: Seq<char>, c: char) -> Seq<char>
    decreases text.len(),
{
    if text.len() == 0 || text[0] == c {
        Seq::empty()
    } else {
        seq![text[0]] + before_first(text.skip(1), c)
    }
}

/// The decimal digit `d`.
pub open spec fn digit(d: nat) -> char {
    (48 + d) as char
}

/// `n` in decimal, without leading zeros.
pub open spec fn decimal(n: nat) -> Seq<char>
    decreases n,
{
    if n < 10 {
        seq![digit(n)]
    } else {
        decimal(n / 10).push(digit(n % 10))
    }
}

/// `text` followed by as many spaces as bring it to `width` characters.
pub open spec fn left_aligned(text: Seq<char>, width: nat) -> Seq<char> {
    if text.len() >= width {
        text
    } else {
        text + Seq::new((width - text.len()) as nat, |i: int| ' ')
    }
}

/// `String::push` appends the given character.
pub assume_specification[ String::push ](s: &mut String, ch: char)
    ensures
        final(s)@ == old(s)@.push(ch),
;

/// The Unicode lowercase form of a text.
pub uninterp spec fn lowercase(text: Seq<char>) -> Seq<char>;

/// `str::to_lowercase` gives the Unicode lowercase form of the text, which
/// depends on its characters alone.
pub assume_specification[ str::to_lowercase ](s: &str) -> (lowered: String)
    ensures
        lowered@ == lowercase(s@),
;

/// The characters of `s`, in order.
pub fn chars_of(s: &str) -> (chars: Vec<char>)
    ensures
        chars@ == s@,
{
    let n: usize = s.unicode_len();
    let mut chars: Vec<char> = Vec::with_capacity(n);
    for c in it: s.chars()
        invariant
            it.seq() == s@,
            chars@ == s@.take(it.index() as int),
    {
        chars.push(c);
    }
    chars
}

/// Appends the characters from `from` up to `to` of `chars` to `out`.
fn push_chars(out: &mut String, chars: &Vec<char>, from: usize, to: usize)
    requires
        from <= to <= chars@.len(),
    ensures
        final(out)@ == old(out)@ + chars@.subrange(from as int, to as int),
{
    let ghost before = out@;
    let mut i: usize = from;
    while i < to
        invariant
            from <= i <= to <= chars@.len(),
            out@ == before + chars@.subrange(from as int, i as int),
        decreases to - i,
    {
        out.push(chars[i]);
        i += 1;
    }
}

/// Whether two texts hold the same characters.
pub fn same_text(a: &str, b: &str) -> (same: bool)
    ensures
        same == (a@ == b@),
{
    let left: String = a.to_owned();
    let right: String = b.to_owned();
    left == right
}

/// Whether `pattern` stands in `chars` at `at`.
fn stands_at(chars: &Vec<char>, pattern: &Vec<char>, at: usize) -> (found: bool)
    ensures
        found == occurs_at(chars@, pattern@, at as int),
{
    if at > chars.len() || chars.len() - at < pattern.len() {
        return false;
    }
    let mut j: usize = 0;
    while j < pattern.len()
        invariant
            at + pattern@.len() <= chars.len(),
            j <= pattern@.len(),
            forall|k: int| 0 <= k < j ==> chars@[at + k] == pattern@[k],
        decreases pattern@.len() - j,
    {
        if chars[at + j] != pattern[j] {
            assert(chars@.subrange(at as int, at + pattern@.len())[j as int] != pattern@[j as int]);
            return false;
        }
        j += 1;
    }
    true
}

/// Whether `pattern` stands somewhere in `text`.
pub fn contains(text: &str, pattern: &str) -> (found: bool)
    ensures
        found == contains_text(text@, pattern@),
{
    let chars = chars_of(text);
    let wanted = chars_of(pattern);
    if wanted.len() > chars.len() {
        return false;
    }
    let mut at: usize = 0;
    while at <= chars.len() - wanted.len()
        invariant
            chars@ == text@,
            wanted@ == pattern@,
            wanted@.len() <= chars@.len(),
            at <= chars@.len() - wanted@.len() + 1,
            forall|k: int| 0 <= k < at ==> !occurs_at(text@, pattern@, k),
        decreases chars@.len() + 1 - at,
    {
        if stands_at(&chars, &wanted, at) {
            return true;
        }
        if at == chars.len() - wanted.len() {
            return false;
        }
        at += 1;
    }
    false
}

/// `text` with each occurrence of `pattern` replaced by `with`.
pub fn replace_all(text: &str, pattern: &str, with: &str) -> (out: String)
    requires
        pattern@.len() > 0,
    ensures
        out@ == replaced(text@, pattern@, with@),
{
    let chars = chars_of(text);
    let wanted = chars_of(pattern);
    let mut out: String = String::new();
    let mut at: usize = 0;
    assert(text@.skip(0) =~= text@);
    while at < chars.len()
        invariant
            chars@ == text@,
            wanted@ == pattern@,
            pattern@.len() > 0,
            at <= chars.len(),
            replaced(text@, pattern@, with@) == out@ + replaced(
                text@.skip(at as int),
                pattern@,
                with@,
            ),
        decreases chars@.len() - at,
    {
        let ghost rest = text@.skip(at as int);
        let ghost before = out@;
        if stands_at(&chars, &wanted, at) {
            assert(rest.subrange(0, pattern@.len() as int) =~= text@.subrange(
                at as int,
                at + pattern@.len(),
            ));
            assert(rest.skip(pattern@.len() as int) =~= text@.skip(at + pattern@.len()));
            out.append(with);
            at += wanted.len();
            assert(before + (with@ + replaced(text@.skip(at as int), pattern@, with@)) =~= out@
                + replaced(text@.skip(at as int), pattern@, with@));
        } else {
            proof {
                if occurs_at(rest, pattern@, 0) {
                    assert(rest.subrange(0, pattern@.len() as int) =~= text@.subrange(
                        at as int,
                        at + pattern@.len(),
                    ));
                }
                lemma_replaced_step(rest, pattern@, with@);
            }
            assert(rest.skip(1) =~= text@.skip(at + 1));
            out.push(chars[at]);
            at += 1;
            assert(before + (seq![rest[0]] + replaced(text@.skip(at as int), pattern@, with@))
                =~= out@ + replaced(text@.skip(at as int), pattern@, with@));
        }
    }
    assert(text@.skip(at as int) =~= Seq::<char>::empty());
    assert(out@ + Seq::<char>::empty() =~= out@);
    out
}

/// A character at which no occurrence begins is kept.
proof fn lemma_replaced_step(text: Seq<char>, pattern: Seq<char>, with: Seq<char>)
    requires
        text.len() > 0,
        pattern.len() > 0,
        !occurs_at(text, pattern, 0),
    ensures
        replaced(text, pattern, with) == seq![text[0]] + replaced(text.skip(1), pattern, with),
{
    if text.len() < pattern.len() {
        assert(text =~= seq![text[0]] + text.skip(1));
    }
}

/// `text` without the `c`s it begins with.
pub fn trim_leading(text: &str, c: char) -> (out: String)
    ensures
        out@ == without_leading(text@, c),
{
    let chars = chars_of(text);
    let mut at: usize = 0;
    assert(text@.skip(0) =~= text@);
    while at < chars.len() && chars[at] == c
        invariant
            chars@ == text@,
            at <= chars.len(),
            without_leading(text@, c) == without_leading(text@.skip(at as int), c),
        decreases chars@.len() - at,
    {
        assert(text@.skip(at as int).skip(1) =~= text@.skip(at + 1));
        at += 1;
    }
    let mut out: String = String::new();
    push_chars(&mut out, &chars, at, chars.len());
    assert(out@ =~= text@.skip(at as int));
    out
}

/// `text` up to its first `c`, or all of it where it holds none.
pub fn up_to(text: &str, c: char) -> (out: String)
    ensures
        out@ == before_first(text@, c),
{
    let chars = chars_of(text);
    let mut out: String = String::new();
    let mut at: usize = 0;
    assert(text@.skip(0) =~= text@);
    while at < chars.len() && chars[at] != c
        invariant
            chars@ == text@,
            at <= chars.len(),
            before_first(text@, c) == out@ + before_first(text@.skip(at as int), c),
        decreases chars@.len() - at,
    {
        let ghost before = out@;
        let ghost rest = text@.skip(at as int);
        assert(rest.skip(1) =~= text@.skip(at + 1));
        out.push(chars[at]);
        at += 1;
        assert(before + (seq![rest[0]] + before_first(text@.skip(at as int), c)) =~= out@
            + before_first(text@.skip(at as int), c));
    }
    assert(before_first(text@.skip(at as int), c) =~= Seq::<char>::empty());
    assert(out@ + Seq::<char>::empty() =~= out@);
    out
}

/// Appends `n` in decimal to `out`.
pub fn push_decimal(out: &mut String, n: u64)
    ensures
        final(out)@ == old(out)@ + decimal(n as nat),
    decreases n,
{
    let ghost before = out@;
    if n >= 10 {
        push_decimal(out, n / 10);
    }
    let last: u8 = (n % 10) as u8;
    out.push((48u8 + last) as char);
    assert(out@ =~= before + decimal(n as nat));
}

/// Appends `n` in decimal to `out`, followed by spaces up to `width` characters.
pub fn push_left_aligned(out: &mut String, n: u64, width: usize)
    ensures
        final(out)@ == old(out)@ + left_aligned(decimal(n as nat), width as nat),
{
    let ghost before = out@;
    let mut number: String = String::new();
    push_decimal(&mut number, n);
    assert(number@ =~= decimal(n as nat));
    out.append(number.as_str());
    let mut used: usize = number.as_str().unicode_len();
    let ghost digits = decimal(n as nat);
    while used < width
        invariant
            digits.len() <= used,
            used <= width || used == digits.len(),
            out@ == before + digits + Seq::new((used - digits.len()) as nat, |i: int| ' '),
        decreases width - used,
    {
        out.push(' ');
        used += 1;
        assert(out@ =~= before + digits + Seq::new((used - digits.len()) as nat, |i: int| ' '));
    }
    assert(out@ =~= before + left_aligned(digits, width as nat));
}

/// A text in which the pattern does not occur is kept as it is.
pub proof fn lemma_replaced_absent(text: Seq<char>, pattern: Seq<char>, with: Seq<char>)
    requires
        !contains_text(text, pattern),
    ensures
        replaced(text, pattern, with) == text,
    decreases text.len(),
{
    if pattern.len() > 0 && text.len() >= pattern.len() {
        assert(!occurs_at(text, pattern, 0));
        let rest = text.skip(1);
        assert(!contains_text(rest, pattern)) by {
            if contains_text(rest, pattern) {
                let at = choose|at: int| occurs_at(rest, pattern, at);
                assert(rest.subrange(at, at + pattern.len()) =~= text.subrange(
                    at + 1,
                    at + 1 + pattern.len(),
                ));
                assert(occurs_at(text, pattern, at + 1));
            }
        }
        lemma_replaced_absent(rest, pattern, with);
        assert(seq![text[0]] + rest =~= text);
    }
}

/// A pattern is found in a text exactly where the text is something, the pattern
/// and something.
pub proof fn law_what_stands_in_a_text_is_found(
    before: Seq<char>,
    pattern: Seq<char>,
    after: Seq<char>,
)
    ensures
        contains_text(before + pattern + after, pattern),
{
    let text = before + pattern + after;
    let at = before.len() as int;
    assert(text.subrange(at, at + pattern.len()) =~= pattern);
    assert(occurs_at(text, pattern, at));
}

/// What is found in a text stands in it: there is something before and something
/// after it.
pub proof fn law_what_is_found_stands_in_the_text(text: Seq<char>, pattern: Seq<char>)
    requires
        contains_text(text, pattern),
    ensures
        exists|before: Seq<char>, after: Seq<char>| text == #[trigger] (before + pattern + after),
{
    let at = choose|at: int| occurs_at(text, pattern, at);
    let (before, after) = (text.take(at), text.skip(at + pattern.len()));
    assert(text =~= before + text.subrange(at, at + pattern.len()) + after);
    assert(text == before + pattern + after);
}

/// Each occurrence is replaced, from the left: a text up to its first occurrence
/// is kept, the occurrence becomes the replacement, and what follows it is treated
/// alike.
pub proof fn law_occurrences_are_replaced(
    before: Seq<char>,
    pattern: Seq<char>,
    after: Seq<char>,
    with: Seq<char>,
)
    requires
        pattern.len() > 0,
        forall|at: int|
            0 <= at < before.len() ==> !#[trigger] occurs_at(before + pattern + after, pattern, at),
    ensures
        replaced(before + pattern + after, pattern, with) == before + with + replaced(
            after,
            pattern,
            with,
        ),
    decreases before.len(),
{
    let text = before + pattern + after;
    if before.len() == 0 {
        assert(text.subrange(0, pattern.len() as int) =~= pattern);
        assert(occurs_at(text, pattern, 0));
        assert(text.skip(pattern.len() as int) =~= after);
        assert(with + replaced(after, pattern, with) =~= before + with + replaced(
            after,
            pattern,
            with,
        ));
    } else {
        let rest = before.skip(1);
        let tail = rest + pattern + after;
        assert(text.skip(1) =~= tail);
        assert(!occurs_at(text, pattern, 0));
        assert forall|at: int| 0 <= at < rest.len() implies !#[trigger] occurs_at(
            tail,
            pattern,
            at,
        ) by {
            assert(!occurs_at(text, pattern, at + 1));
            if at + pattern.len() <= tail.len() {
                assert(tail.subrange(at, at + pattern.len()) =~= text.subrange(
                    at + 1,
                    at + 1 + pattern.len(),
                ));
            }
        }
        law_occurrences_are_replaced(rest, pattern, after, with);
        lemma_replaced_step(text, pattern, with);
        assert(seq![text[0]] + (rest + with + replaced(after, pattern, with)) =~= before + with
            + replaced(after, pattern, with));
    }
}

/// Replacing a single character by nothing leaves the other characters, in order.
pub proof fn law_removing_a_character_keeps_the_others(text: Seq<char>, c: char)
    ensures
        !replaced(text, seq![c], Seq::empty()).contains(c),
        forall|other: char|
            other != c ==> (#[trigger] replaced(text, seq![c], Seq::empty()).contains(other)
                <==> text.contains(other)),
        text.len() > 0 && text[0] != c ==> replaced(text, seq![c], Seq::empty()) == seq![text[0]]
            + replaced(text.skip(1), seq![c], Seq::empty()),
        text.len() > 0 && text[0] == c ==> replaced(text, seq![c], Seq::empty()) == replaced(
            text.skip(1),
            seq![c],
            Seq::empty(),
        ),
    decreases text.len(),
{
    let (pattern, with) = (seq![c], Seq::<char>::empty());
    if text.len() > 0 {
        let rest = text.skip(1);
        law_removing_a_character_keeps_the_others(rest, c);
        let (all, older) = (replaced(text, pattern, with), replaced(rest, pattern, with));
        assert(text =~= seq![text[0]] + rest);
        assert(occurs_at(text, pattern, 0) <==> text[0] == c) by {
            assert(text.subrange(0, 1) =~= seq![text[0]]);
            if text[0] != c {
                assert(text.subrange(0, 1)[0] != pattern[0]);
            }
        }
        if text[0] == c {
            assert(text.skip(pattern.len() as int) =~= rest);
            assert(with + older =~= older);
        } else {
            lemma_replaced_step(text, pattern, with);
        }
        assert forall|x: char| x != c implies (#[trigger] all.contains(x) <==> text.contains(x)) by {
            if all.contains(x) {
                let k = choose|k: int| 0 <= k < all.len() && all[k] == x;
                if text[0] == c {
                    assert(older.contains(x));
                } else if k > 0 {
                    assert(older[k - 1] == x);
                } else {
                    assert(text[0] == x);
                }
                if older.contains(x) {
                    let j = choose|j: int| 0 <= j < rest.len() && rest[j] == x;
                    assert(text[j + 1] == x);
                }
            }
            if text.contains(x) {
                let j = choose|j: int| 0 <= j < text.len() && text[j] == x;
                if j > 0 {
                    assert(rest[j - 1] == x);
                    assert(older.contains(x));
                    let k = choose|k: int| 0 <= k < older.len() && older[k] == x;
                    if text[0] == c {
                        assert(all[k] == x);
                    } else {
                        assert(all[k + 1] == x);
                    }
                } else {
                    assert(all[0] == x);
                }
            }
        }
        if all.contains(c) {
            let k = choose|k: int| 0 <= k < all.len() && all[k] == c;
            if text[0] != c {
                assert(older[k - 1] == c);
            }
        }
    }
}

/// Trimming takes off leading characters alone, and all of them: what is taken off
/// is only that character, and what is left does not begin with it.
pub proof fn law_trimming_takes_off_the_leading_ones(text: Seq<char>, c: char)
    ensures
        without_leading(text, c).len() <= text.len(),
        without_leading(text, c) == text.skip(text.len() - without_leading(text, c).len()),
        forall|i: int|
            0 <= i < text.len() - without_leading(text, c).len() ==> #[trigger] text[i] == c,
        without_leading(text, c).len() > 0 ==> without_leading(text, c)[0] != c,
    decreases text.len(),
{
    if text.len() > 0 && text[0] == c {
        let rest = text.skip(1);
        law_trimming_takes_off_the_leading_ones(rest, c);
        let left = without_leading(text, c);
        assert(left =~= text.skip(text.len() - left.len()));
        assert forall|i: int| 0 <= i < text.len() - left.len() implies #[trigger] text[i] == c by {
            if i > 0 {
                assert(rest[i - 1] == c);
            }
        }
    } else {
        assert(text =~= text.skip(0));
    }
}

/// A text up to a character begins the text, does not hold the character, and is
/// followed by it unless it is the whole text.
pub proof fn law_cutting_stops_at_the_first(text: Seq<char>, c: char)
    ensures
        before_first(text, c).len() <= text.len(),
        before_first(text, c) == text.take(before_first(text, c).len() as int),
        !before_first(text, c).contains(c),
        before_first(text, c).len() < text.len() ==> text[before_first(text, c).len() as int] == c,
    decreases text.len(),
{
    if text.len() > 0 && text[0] != c {
        let rest = text.skip(1);
        law_cutting_stops_at_the_first(rest, c);
        let (part, tail) = (before_first(text, c), before_first(rest, c));
        assert(part =~= text.take(part.len() as int));
        if part.contains(c) {
            let k = choose|k: int| 0 <= k < part.len() && part[k] == c;
            assert(tail[k - 1] == c);
        }
        if part.len() < text.len() {
            assert(rest[tail.len() as int] == text[part.len() as int]);
        }
    } else {
        assert(before_first(text, c) =~= text.take(0));
    }
}

/// The number that decimal digits stand for.
pub open spec fn number(digits: Seq<char>) -> int
    decreases digits.len(),
{
    if digits.len() == 0 {
        0
    } else {
        10 * number(digits.drop_last()) + (digits.last() as int - '0' as int)
    }
}

/// A number in decimal is made of digits, the first of which is zero for zero
/// alone, and reads back as the number.
pub proof fn law_decimal_reads_back(n: nat)
    ensures
        number(decimal(n)) == n,
        decimal(n).len() > 0,
        forall|i: int| 0 <= i < decimal(n).len() ==> '0' <= #[trigger] decimal(n)[i] <= '9',
        decimal(n)[0] == '0' ==> n == 0,
    decreases n,
{
    let all = decimal(n);
    if n < 10 {
        assert(all.drop_last() =~= Seq::<char>::empty());
        assert(number(all.drop_last()) == 0);
    } else {
        law_decimal_reads_back(n / 10);
        let rest = decimal(n / 10);
        assert(all.drop_last() =~= rest);
        assert(all[0] == rest[0]);
        assert forall|i: int| 0 <= i < all.len() implies '0' <= #[trigger] all[i] <= '9' by {
            if i < rest.len() {
                assert(all[i] == rest[i]);
            }
        }
    }
}

/// A text that is aligned to the left comes first, only spaces follow it, and it
/// takes up the width or its own length where that is more.
pub proof fn law_alignment_adds_spaces_after(text: Seq<char>, width: nat)
    ensures
        left_aligned(text, width).len() == (if text.len() < width {
            width
        } else {
            text.len()
        }),
        left_aligned(text, width).take(text.len() as int) == text,
        forall|i: int|
            text.len() <= i < left_aligned(text, width).len() ==> #[trigger] left_aligned(
                text,
                width,
            )[i] == ' ',
{
    assert(left_aligned(text, width).take(text.len() as int) =~= text);
}

} // verus!
