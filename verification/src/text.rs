//! Text building blocks: decimal numerals, and where one piece of text
//! occurs inside another.

use vstd::prelude::*;

verus! {

/// The text of one decimal digit.
pub open spec fn digit_text(digit: nat) -> Seq<char> {
    if digit == 0 {
        "0"@
    } else if digit == 1 {
        "1"@
    } else if digit == 2 {
        "2"@
    } else if digit == 3 {
        "3"@
    } else if digit == 4 {
        "4"@
    } else if digit == 5 {
        "5"@
    } else if digit == 6 {
        "6"@
    } else if digit == 7 {
        "7"@
    } else if digit == 8 {
        "8"@
    } else {
        "9"@
    }
}

/// A number written in decimal with no leading zeros.
pub open spec fn decimal(value: nat) -> Seq<char>
    decreases value,
{
    if value < 10 {
        digit_text(value)
    } else {
        decimal(value / 10) + digit_text(value % 10)
    }
}

fn push_digit(out: &mut String, digit: usize)
    requires
        digit < 10,
    ensures
        final(out)@ == old(out)@ + digit_text(digit as nat),
{
    let text = if digit == 0 {
        "0"
    } else if digit == 1 {
        "1"
    } else if digit == 2 {
        "2"
    } else if digit == 3 {
        "3"
    } else if digit == 4 {
        "4"
    } else if digit == 5 {
        "5"
    } else if digit == 6 {
        "6"
    } else if digit == 7 {
        "7"
    } else if digit == 8 {
        "8"
    } else {
        "9"
    };
    out.append(text);
}

pub(crate) fn push_decimal(out: &mut String, value: usize)
    ensures
        final(out)@ == old(out)@ + decimal(value as nat),
    decreases value,
{
    if value >= 10 {
        push_decimal(out, value / 10);
    }
    push_digit(out, value % 10);
    proof {
        if value >= 10 {
            assert(old(out)@ + decimal(value as nat) =~= old(out)@ + decimal((value / 10) as nat)
                + digit_text((value % 10) as nat));
        }
    }
}

/// `needle` occurs somewhere in `text`.
pub open spec fn mentions(text: Seq<char>, needle: Seq<char>) -> bool {
    exists|start: int|
        0 <= start && start + needle.len() <= text.len() && #[trigger] text.subrange(
            start,
            start + needle.len(),
        ) == needle
}

pub(crate) proof fn lemma_mentions_start(needle: Seq<char>, rest: Seq<char>)
    ensures
        mentions(needle + rest, needle),
{
    assert((needle + rest).subrange(0, 0int + needle.len()) =~= needle);
}

proof fn lemma_mentions_after(front: Seq<char>, text: Seq<char>, needle: Seq<char>)
    requires
        mentions(text, needle),
    ensures
        mentions(front + text, needle),
{
    let start = choose|start: int|
        0 <= start && start + needle.len() <= text.len() && #[trigger] text.subrange(
            start,
            start + needle.len(),
        ) == needle;
    let shifted = start + front.len();
    assert((front + text).subrange(shifted, shifted + needle.len()) =~= text.subrange(
        start,
        start + needle.len(),
    ));
}

proof fn lemma_mentions_before(text: Seq<char>, back: Seq<char>, needle: Seq<char>)
    requires
        mentions(text, needle),
    ensures
        mentions(text + back, needle),
{
    let start = choose|start: int|
        0 <= start && start + needle.len() <= text.len() && #[trigger] text.subrange(
            start,
            start + needle.len(),
        ) == needle;
    assert((text + back).subrange(start, start + needle.len()) =~= text.subrange(
        start,
        start + needle.len(),
    ));
}

pub(crate) proof fn lemma_wrap_text(front: Seq<char>, text: Seq<char>, back: Seq<char>, needle: Seq<char>)
    requires
        mentions(text, needle),
    ensures
        mentions(front + text + back, needle),
{
    lemma_mentions_after(front, text, needle);
    lemma_mentions_before(front + text, back, needle);
}

pub(crate) proof fn lemma_pair_text(
    front: Seq<char>,
    a: Seq<char>,
    middle: Seq<char>,
    b: Seq<char>,
    back: Seq<char>,
    needle: Seq<char>,
)
    requires
        mentions(a, needle) || mentions(b, needle),
    ensures
        mentions(front + a + middle + b + back, needle),
{
    if mentions(a, needle) {
        lemma_wrap_text(front, a, middle, needle);
        lemma_mentions_before(front + a + middle, b, needle);
        lemma_mentions_before(front + a + middle + b, back, needle);
    } else {
        lemma_mentions_after(front + a + middle, b, needle);
        lemma_mentions_before(front + a + middle + b, back, needle);
    }
}

/// How a character moves the nesting depth of parentheses.
pub open spec fn paren_delta(c: char) -> int {
    if c == '(' {
        1
    } else if c == ')' {
        -1
    } else {
        0
    }
}

/// Parentheses opened minus parentheses closed.
pub open spec fn paren_depth(text: Seq<char>) -> int
    decreases text.len(),
{
    if text.len() == 0 {
        0
    } else {
        paren_depth(text.drop_last()) + paren_delta(text.last())
    }
}

/// Starting `base` parentheses deep, no prefix of `text` closes more
/// parentheses than are open.
pub open spec fn never_overcloses(text: Seq<char>, base: int) -> bool {
    forall|k: int| 0 <= k <= text.len() ==> base + #[trigger] paren_depth(text.subrange(0, k)) >= 0
}

/// Every parenthesis is closed, and none is closed before it is opened.
pub open spec fn balanced(text: Seq<char>) -> bool {
    paren_depth(text) == 0 && never_overcloses(text, 0)
}

/// The text holds no parenthesis.
pub open spec fn paren_free(text: Seq<char>) -> bool {
    forall|i: int| 0 <= i < text.len() ==> paren_delta(#[trigger] text[i]) == 0
}

pub proof fn lemma_depth_append(a: Seq<char>, b: Seq<char>)
    ensures
        paren_depth(a + b) == paren_depth(a) + paren_depth(b),
    decreases b.len(),
{
    if b.len() == 0 {
        assert(a + b =~= a);
    } else {
        assert((a + b).drop_last() =~= a + b.drop_last());
        lemma_depth_append(a, b.drop_last());
    }
}

proof fn lemma_never_overcloses_append(a: Seq<char>, b: Seq<char>, base: int)
    requires
        never_overcloses(a, base),
        never_overcloses(b, base + paren_depth(a)),
    ensures
        never_overcloses(a + b, base),
{
    assert forall|k: int| 0 <= k <= (a + b).len() implies base + #[trigger] paren_depth(
        (a + b).subrange(0, k),
    ) >= 0 by {
        if k <= a.len() {
            assert((a + b).subrange(0, k) =~= a.subrange(0, k));
        } else {
            assert((a + b).subrange(0, k) =~= a + b.subrange(0, k - a.len()));
            assert(a.subrange(0, a.len() as int) =~= a);
            lemma_depth_append(a, b.subrange(0, k - a.len()));
        }
    }
}

proof fn lemma_never_overcloses_deeper(text: Seq<char>, base: int, deeper: int)
    requires
        never_overcloses(text, base),
        base <= deeper,
    ensures
        never_overcloses(text, deeper),
{
    assert forall|k: int| 0 <= k <= text.len() implies deeper + #[trigger] paren_depth(
        text.subrange(0, k),
    ) >= 0 by {}
}

proof fn lemma_paren_free_depth(text: Seq<char>)
    requires
        paren_free(text),
    ensures
        paren_depth(text) == 0,
    decreases text.len(),
{
    if text.len() > 0 {
        lemma_paren_free_depth(text.drop_last());
    }
}

/// Text without parentheses is balanced.
pub proof fn lemma_paren_free_balanced(text: Seq<char>)
    requires
        paren_free(text),
    ensures
        balanced(text),
{
    lemma_paren_free_depth(text);
    assert forall|k: int| 0 <= k <= text.len() implies 0 + #[trigger] paren_depth(
        text.subrange(0, k),
    ) >= 0 by {
        lemma_paren_free_depth(text.subrange(0, k));
    }
}

/// Balanced texts laid end to end are balanced.
pub proof fn lemma_balanced_append(a: Seq<char>, b: Seq<char>)
    requires
        balanced(a),
        balanced(b),
    ensures
        balanced(a + b),
{
    lemma_depth_append(a, b);
    lemma_never_overcloses_append(a, b, 0);
}

/// A balanced text inside a pair of parentheses is balanced.
pub proof fn lemma_enclosed_balanced(inner: Seq<char>)
    requires
        balanced(inner),
    ensures
        balanced("("@ + inner + ")"@),
{
    reveal_strlit("(");
    reveal_strlit(")");
    let open = "("@;
    let close = ")"@;
    assert(open.len() == 1 && open[0] == '(');
    assert(close.len() == 1 && close[0] == ')');
    assert(open.drop_last() =~= Seq::<char>::empty());
    assert(close.drop_last() =~= Seq::<char>::empty());
    assert(paren_depth(Seq::<char>::empty()) == 0);
    assert(paren_depth(open) == 1);
    assert(paren_depth(close) == -1);
    assert(never_overcloses(open, 0)) by {
        assert(open.subrange(0, 0) =~= Seq::<char>::empty());
        assert(open.subrange(0, 1) =~= open);
    }
    assert(never_overcloses(close, 1)) by {
        assert(close.subrange(0, 0) =~= Seq::<char>::empty());
        assert(close.subrange(0, 1) =~= close);
    }
    lemma_never_overcloses_deeper(inner, 0, 1);
    lemma_never_overcloses_append(open, inner, 0);
    lemma_depth_append(open, inner);
    lemma_never_overcloses_append(open + inner, close, 0);
    lemma_depth_append(open + inner, close);
}

proof fn lemma_digit_paren_free(digit: nat)
    ensures
        paren_free(digit_text(digit)),
        digit_text(digit).len() == 1,
{
    reveal_strlit("0");
    reveal_strlit("1");
    reveal_strlit("2");
    reveal_strlit("3");
    reveal_strlit("4");
    reveal_strlit("5");
    reveal_strlit("6");
    reveal_strlit("7");
    reveal_strlit("8");
    reveal_strlit("9");
}

/// A decimal numeral holds at least one character and no parenthesis.
pub proof fn lemma_decimal_paren_free(value: nat)
    ensures
        paren_free(decimal(value)),
        decimal(value).len() > 0,
    decreases value,
{
    lemma_digit_paren_free(value % 10);
    if value >= 10 {
        lemma_decimal_paren_free(value / 10);
        let head = decimal(value / 10);
        let tail = digit_text(value % 10);
        assert forall|i: int| 0 <= i < (head + tail).len() implies paren_delta(
            #[trigger] (head + tail)[i],
        ) == 0 by {
            if i < head.len() {
                assert((head + tail)[i] == head[i]);
            } else {
                assert((head + tail)[i] == tail[i - head.len()]);
            }
        }
    } else {
        lemma_digit_paren_free(value);
    }
}


/// `c` is one of the ten decimal digits.
pub open spec fn is_digit(c: char) -> bool {
    '0' <= c && c <= '9'
}

/// `text` is empty or does not start with a digit.
pub open spec fn starts_without_digit(text: Seq<char>) -> bool {
    text.len() == 0 || !is_digit(text[0])
}

/// `word` stands in `text` from `start` on, and no digit follows it there.
pub open spec fn written_at(text: Seq<char>, start: int, word: Seq<char>) -> bool {
    &&& 0 <= start
    &&& start + word.len() <= text.len()
    &&& text.subrange(start, start + word.len()) == word
    &&& (start + word.len() == text.len() || !is_digit(text[start + word.len()]))
}

/// Every `marker` in `text` stands `offset` characters into a word made of
/// `prefix`, the decimal numeral of an index below `bound`, and `suffix`, and
/// no digit follows that word.
pub open spec fn indexes_marked_below(
    text: Seq<char>,
    marker: char,
    offset: int,
    prefix: Seq<char>,
    suffix: Seq<char>,
    bound: nat,
) -> bool {
    forall|i: int|
        #![trigger text[i]]
        0 <= i < text.len() && text[i] == marker ==> exists|index: nat|
            #![trigger decimal(index)]
            index < bound && written_at(text, i - offset, prefix + decimal(index) + suffix)
}

proof fn lemma_digit_is_digit(digit: nat)
    ensures
        digit_text(digit).len() == 1,
        is_digit(digit_text(digit)[0]),
{
    reveal_strlit("0");
    reveal_strlit("1");
    reveal_strlit("2");
    reveal_strlit("3");
    reveal_strlit("4");
    reveal_strlit("5");
    reveal_strlit("6");
    reveal_strlit("7");
    reveal_strlit("8");
    reveal_strlit("9");
}

/// A decimal numeral is made of digits only.
pub proof fn lemma_decimal_digits(value: nat)
    ensures
        decimal(value).len() > 0,
        forall|i: int| 0 <= i < decimal(value).len() ==> is_digit(#[trigger] decimal(value)[i]),
    decreases value,
{
    lemma_digit_is_digit(value % 10);
    if value >= 10 {
        lemma_decimal_digits(value / 10);
        let head = decimal(value / 10);
        let tail = digit_text(value % 10);
        assert forall|i: int| 0 <= i < (head + tail).len() implies is_digit(
            #[trigger] (head + tail)[i],
        ) by {
            if i < head.len() {
                assert((head + tail)[i] == head[i]);
            } else {
                assert((head + tail)[i] == tail[i - head.len()]);
            }
        }
    } else {
        lemma_digit_is_digit(value);
    }
}

/// Text without `marker` marks nothing.
pub proof fn lemma_unmarked(
    text: Seq<char>,
    marker: char,
    offset: int,
    prefix: Seq<char>,
    suffix: Seq<char>,
    bound: nat,
)
    requires
        forall|i: int| 0 <= i < text.len() ==> #[trigger] text[i] != marker,
    ensures
        indexes_marked_below(text, marker, offset, prefix, suffix, bound),
{
}

/// Marked words stay whole when two texts are joined, as long as the second
/// does not start with a digit that would run on from the first.
pub proof fn lemma_marked_append(
    a: Seq<char>,
    b: Seq<char>,
    marker: char,
    offset: int,
    prefix: Seq<char>,
    suffix: Seq<char>,
    bound: nat,
)
    requires
        indexes_marked_below(a, marker, offset, prefix, suffix, bound),
        indexes_marked_below(b, marker, offset, prefix, suffix, bound),
        starts_without_digit(b),
    ensures
        indexes_marked_below(a + b, marker, offset, prefix, suffix, bound),
{
    let text = a + b;
    assert forall|i: int| 0 <= i < text.len() && #[trigger] text[i] == marker implies exists|
        index: nat,
    |
        #![trigger decimal(index)]
        index < bound && written_at(text, i - offset, prefix + decimal(index) + suffix) by {
        if i < a.len() {
            assert(a[i] == text[i]);
            let index = choose|index: nat|
                #![trigger decimal(index)]
                index < bound && written_at(a, i - offset, prefix + decimal(index) + suffix);
            let word = prefix + decimal(index) + suffix;
            let start = i - offset;
            assert(text.subrange(start, start + word.len()) =~= a.subrange(start, start + word.len()));
            if start + word.len() < a.len() {
                assert(text[start + word.len()] == a[start + word.len()]);
            } else if b.len() > 0 {
                assert(text[start + word.len()] == b[0]);
            }
            assert(written_at(text, start, word));
        } else {
            let j = i - a.len();
            assert(b[j] == text[i]);
            let index = choose|index: nat|
                #![trigger decimal(index)]
                index < bound && written_at(b, j - offset, prefix + decimal(index) + suffix);
            let word = prefix + decimal(index) + suffix;
            let start = j - offset;
            assert(text.subrange(a.len() + start, a.len() + start + word.len()) =~= b.subrange(
                start,
                start + word.len(),
            ));
            if start + word.len() < b.len() {
                assert(text[a.len() + start + word.len()] == b[start + word.len()]);
            }
            assert(i - offset == a.len() + start);
            assert(written_at(text, i - offset, word));
        }
    }
}


/// The value of a run of digits, read most significant first.
pub open spec fn digits_value(digits: Seq<char>) -> nat
    decreases digits.len(),
{
    if digits.len() == 0 {
        0
    } else {
        digits_value(digits.drop_last()) * 10 + (digits.last() as int - '0' as int) as nat
    }
}

proof fn lemma_digit_value(digit: nat)
    requires
        digit < 10,
    ensures
        digit_text(digit).len() == 1,
        digit_text(digit)[0] as int == '0' as int + digit,
{
    reveal_strlit("0");
    reveal_strlit("1");
    reveal_strlit("2");
    reveal_strlit("3");
    reveal_strlit("4");
    reveal_strlit("5");
    reveal_strlit("6");
    reveal_strlit("7");
    reveal_strlit("8");
    reveal_strlit("9");
}

/// `decimal(value)` is the base-ten numeral of `value`: it is made of digits,
/// they read back as `value`, and it starts with `0` only when it is `0`.
pub proof fn lemma_decimal_reads_back(value: nat)
    ensures
        decimal(value).len() > 0,
        forall|i: int| 0 <= i < decimal(value).len() ==> is_digit(#[trigger] decimal(value)[i]),
        digits_value(decimal(value)) == value,
        decimal(value)[0] == '0' <==> value == 0,
        decimal(value).len() == 1 <==> value < 10,
    decreases value,
{
    lemma_decimal_digits(value);
    lemma_digit_value(value % 10);
    if value >= 10 {
        lemma_decimal_reads_back(value / 10);
        let head = decimal(value / 10);
        let tail = digit_text(value % 10);
        assert((head + tail).drop_last() =~= head);
        assert((head + tail).last() == tail[0]);
        assert((head + tail)[0] == head[0]);
        assert(decimal(value) == head + tail);
        assert(digits_value(head + tail) == digits_value(head) * 10 + (tail[0] as int - '0' as int) as nat);
        assert(value == (value / 10) * 10 + value % 10);
    } else {
        let single = digit_text(value);
        assert(single.drop_last() =~= Seq::<char>::empty());
        assert(single.last() == single[0]);
        assert(digits_value(single) == digits_value(Seq::<char>::empty()) * 10 + (single[0] as int - '0' as int) as nat);
    }
}

} // verus!
