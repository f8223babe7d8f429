//! Character-level helpers shared by the lexer and the renderer: whitespace,
//! trimming, and building owned strings.

use vstd::prelude::*;
use vstd::std_specs::iter::IteratorSpec;

verus! {

/// `String::push` of the standard library: appends one character to the end
/// of the string and leaves the rest as it was.
pub assume_specification[ std::string::String::push ](s: &mut std::string::String, ch: char)
    ensures
        final(s)@ == old(s)@.push(ch),
;

/// The characters that carry the Unicode `White_Space` property.
pub open spec fn is_whitespace(c: char) -> bool {
    ||| '\u{0009}' <= c <= '\u{000D}'
    ||| c == ' '
    ||| c == '\u{0085}'
    ||| c == '\u{00A0}'
    ||| c == '\u{1680}'
    ||| '\u{2000}' <= c <= '\u{200A}'
    ||| c == '\u{2028}'
    ||| c == '\u{2029}'
    ||| c == '\u{202F}'
    ||| c == '\u{205F}'
    ||| c == '\u{3000}'
}

/// Whether `c` is a whitespace character.
pub fn whitespace(c: char) -> (b: bool)
    ensures
        b == is_whitespace(c),
{
    ('\u{0009}' <= c && c <= '\u{000D}') || c == ' ' || c == '\u{0085}' || c == '\u{00A0}' || c
        == '\u{1680}' || ('\u{2000}' <= c && c <= '\u{200A}') || c == '\u{2028}' || c
        == '\u{2029}' || c == '\u{202F}' || c == '\u{205F}' || c == '\u{3000}'
}

/// `s` without its leading whitespace.
pub open spec fn trim_start(s: Seq<char>) -> Seq<char>
    decreases s.len(),
{
    if s.len() > 0 && is_whitespace(s.first()) {
        trim_start(s.drop_first())
    } else {
        s
    }
}

/// `s` without its trailing whitespace.
pub open spec fn trim_end(s: Seq<char>) -> Seq<char>
    decreases s.len(),
{
    if s.len() > 0 && is_whitespace(s.last()) {
        trim_end(s.drop_last())
    } else {
        s
    }
}

/// `s` without its leading and trailing whitespace.
pub open spec fn trim(s: Seq<char>) -> Seq<char> {
    trim_end(trim_start(s))
}

/// Whether `s` holds nothing but whitespace.
pub open spec fn all_whitespace(s: Seq<char>) -> bool {
    forall|i: int| 0 <= i < s.len() ==> is_whitespace(#[trigger] s[i])
}

/// Whitespace in front of a text does not change what is left once the
/// leading whitespace is taken off.
pub proof fn lemma_trim_start_padding(padding: Seq<char>, s: Seq<char>)
    requires
        all_whitespace(padding),
    ensures
        trim_start(padding + s) == trim_start(s),
    decreases padding.len(),
{
    if padding.len() > 0 {
        assert((padding + s).first() == padding[0]);
        assert((padding + s).drop_first() =~= padding.drop_first() + s);
        assert(all_whitespace(padding.drop_first())) by {
            assert forall|i: int| 0 <= i < padding.drop_first().len() implies is_whitespace(
                #[trigger] padding.drop_first()[i],
            ) by {
                assert(padding.drop_first()[i] == padding[i + 1]);
            }
        }
        lemma_trim_start_padding(padding.drop_first(), s);
    } else {
        assert(padding + s =~= s);
    }
}

/// Whitespace behind a text does not change what is left once the trailing
/// whitespace is taken off.
pub proof fn lemma_trim_end_padding(s: Seq<char>, padding: Seq<char>)
    requires
        all_whitespace(padding),
    ensures
        trim_end(s + padding) == trim_end(s),
    decreases padding.len(),
{
    if padding.len() > 0 {
        assert((s + padding).last() == padding.last());
        assert((s + padding).drop_last() =~= s + padding.drop_last());
        assert(all_whitespace(padding.drop_last())) by {
            assert forall|i: int| 0 <= i < padding.drop_last().len() implies is_whitespace(
                #[trigger] padding.drop_last()[i],
            ) by {
                assert(padding.drop_last()[i] == padding[i]);
            }
        }
        lemma_trim_end_padding(s, padding.drop_last());
    } else {
        assert(s + padding =~= s);
    }
}

/// Of a text that is whitespace only, nothing is left once the leading
/// whitespace is taken off.
pub proof fn lemma_trim_start_of_whitespace(s: Seq<char>)
    requires
        all_whitespace(s),
    ensures
        trim_start(s) == Seq::<char>::empty(),
    decreases s.len(),
{
    if s.len() > 0 {
        assert(is_whitespace(s[0]));
        assert forall|i: int| 0 <= i < s.drop_first().len() implies is_whitespace(
            #[trigger] s.drop_first()[i],
        ) by {
            assert(s.drop_first()[i] == s[i + 1]);
        }
        lemma_trim_start_of_whitespace(s.drop_first());
    } else {
        assert(s =~= Seq::<char>::empty());
    }
}

/// What follows a text that is not whitespace only is untouched when the
/// leading whitespace is taken off.
pub proof fn lemma_trim_start_keeps_tail(s: Seq<char>, tail: Seq<char>)
    requires
        !all_whitespace(s),
    ensures
        trim_start(s + tail) == trim_start(s) + tail,
    decreases s.len(),
{
    assert(s.len() > 0);
    assert((s + tail).first() == s[0]);
    if is_whitespace(s[0]) {
        assert((s + tail).drop_first() =~= s.drop_first() + tail);
        assert(!all_whitespace(s.drop_first())) by {
            let i = choose|i: int| 0 <= i < s.len() && !is_whitespace(#[trigger] s[i]);
            assert(s.drop_first()[i - 1] == s[i]);
        }
        lemma_trim_start_keeps_tail(s.drop_first(), tail);
    }
}

/// What is left once the leading whitespace is taken off ends the text and
/// begins with no whitespace.
pub proof fn lemma_trim_start_is_suffix(s: Seq<char>)
    ensures
        trim_start(s).len() <= s.len(),
        trim_start(s) == s.skip(s.len() - trim_start(s).len()),
        trim_start(s).len() > 0 ==> !is_whitespace(trim_start(s).first()),
    decreases s.len(),
{
    if s.len() > 0 && is_whitespace(s.first()) {
        lemma_trim_start_is_suffix(s.drop_first());
        let rest = s.drop_first();
        assert(rest.skip(rest.len() - trim_start(rest).len()) =~= s.skip(
            s.len() - trim_start(rest).len(),
        ));
    } else {
        assert(s.skip(0) =~= s);
    }
}

/// What is left once the trailing whitespace is taken off begins the text
/// and ends with no whitespace.
pub proof fn lemma_trim_end_is_prefix(s: Seq<char>)
    ensures
        trim_end(s).len() <= s.len(),
        trim_end(s) == s.take(trim_end(s).len() as int),
        trim_end(s).len() > 0 ==> !is_whitespace(trim_end(s).last()),
    decreases s.len(),
{
    if s.len() > 0 && is_whitespace(s.last()) {
        lemma_trim_end_is_prefix(s.drop_last());
        let rest = s.drop_last();
        assert(rest.take(trim_end(rest).len() as int) =~= s.take(trim_end(rest).len() as int));
    } else {
        assert(s.take(s.len() as int) =~= s);
    }
}

/// Trimming a trimmed text changes nothing.
pub proof fn lemma_trim_idempotent(s: Seq<char>)
    ensures
        trim(trim(s)) == trim(s),
{
    let front = trim_start(s);
    let both = trim_end(front);
    lemma_trim_start_is_suffix(s);
    lemma_trim_end_is_prefix(front);
    if both.len() > 0 {
        assert(both.first() == front.first());
    }
}

/// Whitespace around a text does not change what trimming leaves of it.
pub proof fn lemma_trim_padding(before: Seq<char>, s: Seq<char>, after: Seq<char>)
    requires
        all_whitespace(before),
        all_whitespace(after),
    ensures
        trim(before + s + after) == trim(s),
{
    assert(before + s + after =~= before + (s + after));
    lemma_trim_start_padding(before, s + after);
    if all_whitespace(s) {
        assert(all_whitespace(s + after)) by {
            assert forall|i: int| 0 <= i < (s + after).len() implies is_whitespace(
                #[trigger] (s + after)[i],
            ) by {
                if i < s.len() {
                    assert((s + after)[i] == s[i]);
                } else {
                    assert((s + after)[i] == after[i - s.len()]);
                }
            }
        }
        lemma_trim_start_of_whitespace(s + after);
        lemma_trim_start_of_whitespace(s);
    } else {
        lemma_trim_start_keeps_tail(s, after);
        lemma_trim_end_padding(trim_start(s), after);
    }
}

/// Whether `a` and `b` hold the same characters.
pub fn same_text(a: &str, b: &str) -> (same: bool)
    ensures
        same == (a@ == b@),
{
    let mut left = a.chars();
    let mut right = b.chars();
    let ghost mut read: int = 0;
    loop
        invariant
            left.obeys_prophetic_iter_laws(),
            right.obeys_prophetic_iter_laws(),
            left.decrease() is Some,
            0 <= read <= a@.len(),
            read <= b@.len(),
            left.remaining() == a@.skip(read),
            right.remaining() == b@.skip(read),
            a@.take(read) == b@.take(read),
        decreases left.decrease()->0,
    {
        let l = left.next();
        let r = right.next();
        match (l, r) {
            (Some(x), Some(y)) => {
                if x != y {
                    assert(a@[read] != b@[read]);
                    return false;
                }
                proof {
                    assert(a@.skip(read).drop_first() =~= a@.skip(read + 1));
                    assert(b@.skip(read).drop_first() =~= b@.skip(read + 1));
                    assert(a@.take(read + 1) =~= a@.take(read).push(a@[read]));
                    assert(b@.take(read + 1) =~= b@.take(read).push(b@[read]));
                    read = read + 1;
                }
            },
            (None, None) => {
                assert(a@.take(read) =~= a@);
                assert(b@.take(read) =~= b@);
                return true;
            },
            _ => {
                assert(a@.len() != b@.len());
                return false;
            },
        }
    }
}

/// `s` without leading and trailing whitespace, as an owned string.
pub fn trimmed_text(s: &str) -> (text: String)
    ensures
        text@ == trim(s@),
{
    let mut chars: Vec<char> = Vec::new();
    for c in it: s.chars()
        invariant
            it.seq() == s@,
            chars@ == it.seq().take(it.index()),
    {
        chars.push(c);
        assert(s@.take(it.index() + 1) =~= s@.take(it.index()).push(c));
    }
    assert(s@.take(s@.len() as int) =~= s@);
    trimmed(&chars)
}

/// The character that writes the decimal digit `d`.
pub open spec fn digit(d: int) -> char {
    (48 + d) as char
}

/// The decimal digits of `n`, the highest first, without leading zeros.
pub open spec fn digits(n: nat) -> Seq<char>
    decreases n,
{
    if n < 10 {
        seq![digit(n as int)]
    } else {
        digits(n / 10).push(digit(n as int % 10))
    }
}

/// The decimal text of `n`: its digits, behind a `-` where it is negative.
pub open spec fn decimal(n: int) -> Seq<char> {
    if n < 0 {
        seq!['-'] + digits((-n) as nat)
    } else {
        digits(n as nat)
    }
}

/// The decimal text of `n`.
pub fn decimal_text(n: i64) -> (text: String)
    ensures
        text@ == decimal(n as int),
{
    let mut text = String::new();
    let mut rest: u64 = if n >= 0 {
        n as u64
    } else if n == i64::MIN {
        9223372036854775808u64
    } else {
        (-n) as u64
    };
    if n < 0 {
        text.push('-');
    }
    let ghost sign = text@;
    let ghost magnitude = rest as nat;
    // The digits from the lowest up.
    let mut low: Vec<char> = Vec::new();
    while rest >= 10
        invariant
            digits(magnitude) == digits(rest as nat) + low@.reverse(),
        decreases rest,
    {
        let d = (rest % 10) as u8;
        low.push((48u8 + d) as char);
        proof {
            assert(low@.reverse() =~= seq![digit(rest as int % 10)] + low@.drop_last().reverse());
            assert(digits(rest as nat) == digits(rest as nat / 10).push(digit(rest as int % 10)));
            assert(digits(rest as nat / 10).push(digit(rest as int % 10)) + low@.drop_last().reverse()
                =~= digits(rest as nat / 10) + low@.reverse());
        }
        rest = rest / 10;
    }
    text.push((48u8 + rest as u8) as char);
    let mut i: usize = low.len();
    while i > 0
        invariant
            i <= low.len(),
            text@ == sign + digits(rest as nat) + low@.reverse().take(low.len() - i),
        decreases i,
    {
        i -= 1;
        text.push(low[i]);
        proof {
            let shown = low@.reverse();
            assert(shown.take(low.len() - i) =~= shown.take(low.len() - i - 1).push(low@[i as int]));
        }
    }
    proof {
        assert(low@.reverse().take(low.len() as int) =~= low@.reverse());
        assert(sign + digits(rest as nat) + low@.reverse() =~= sign + digits(magnitude));
        assert(Seq::<char>::empty() + digits(magnitude) =~= digits(magnitude));
    }
    text
}

/// The characters of `chars` as an owned string.
pub fn collect(chars: &Vec<char>) -> (text: String)
    ensures
        text@ == chars@,
{
    let mut text = String::new();
    let mut i: usize = 0;
    while i < chars.len()
        invariant
            i <= chars.len(),
            text@ == chars@.take(i as int),
        decreases chars.len() - i,
    {
        text.push(chars[i]);
        i += 1;
        assert(chars@.take(i as int) =~= chars@.take(i - 1).push(chars@[i - 1]));
    }
    assert(chars@.take(chars.len() as int) =~= chars@);
    text
}

/// The characters of `chars` without leading and trailing whitespace, as an
/// owned string.
pub fn trimmed(chars: &Vec<char>) -> (text: String)
    ensures
        text@ == trim(chars@),
{
    let n = chars.len();
    let mut start: usize = 0;
    assert(chars@.subrange(0, n as int) =~= chars@);
    while start < n && whitespace(chars[start])
        invariant
            start <= n == chars.len(),
            trim_start(chars@) == trim_start(chars@.subrange(start as int, n as int)),
        decreases n - start,
    {
        assert(chars@.subrange(start as int, n as int).drop_first() =~= chars@.subrange(
            start + 1,
            n as int,
        ));
        start += 1;
    }
    let mut end: usize = n;
    while end > start && whitespace(chars[end - 1])
        invariant
            start <= end <= n == chars.len(),
            trim(chars@) == trim_end(chars@.subrange(start as int, end as int)),
        decreases end,
    {
        assert(chars@.subrange(start as int, end as int).drop_last() =~= chars@.subrange(
            start as int,
            end - 1,
        ));
        end -= 1;
    }
    let mut text = String::new();
    let mut i: usize = start;
    while i < end
        invariant
            start <= i <= end <= chars.len(),
            text@ == chars@.subrange(start as int, i as int),
        decreases end - i,
    {
        text.push(chars[i]);
        i += 1;
        assert(chars@.subrange(start as int, i as int) =~= chars@.subrange(
            start as int,
            i - 1,
        ).push(chars@[i - 1]));
    }
    text
}

} // verus!
