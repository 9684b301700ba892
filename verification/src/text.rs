//! Text as sequences of characters: the helpers that the rest of the crate states its
//! rules with.

use vstd::prelude::*;
use vstd::utf8::{decode_utf8, encode_utf8, valid_utf8};

verus! {

/// `String::push`: appends one character to a string.
#[verifier::external_body]
fn push_char(s: &mut String, c: char)
    ensures
        final(s)@ == old(s)@.push(c),
{
    s.push(c)
}

/// The characters of a string.
pub fn chars_of(s: &str) -> (out: Vec<char>)
    ensures
        out@ == s@,
{
    let mut out: Vec<char> = Vec::new();
    for c in it: s.chars()
        invariant
            it.seq() == s@,
            out@ == s@.take(it.index() as int),
    {
        out.push(c);
    }
    out
}

/// The string made of the given characters.
pub fn string_of(chars: &Vec<char>) -> (out: String)
    ensures
        out@ == chars@,
{
    let mut out = String::new();
    let n = chars.len();
    let mut i: usize = 0;
    while i < n
        invariant
            n == chars@.len(),
            i <= n,
            out@ == chars@.take(i as int),
        decreases n - i,
    {
        push_char(&mut out, chars[i]);
        assert(chars@.take(i + 1) =~= chars@.take(i as int).push(chars@[i as int]));
        i = i + 1;
    }
    assert(chars@.take(n as int) =~= chars@);
    out
}

/// Whether `c` carries the Unicode `White_Space` property.
pub open spec fn is_space(c: char) -> bool {
    let n = c as u32;
    ||| 0x09 <= n <= 0x0D
    ||| n == 0x20
    ||| n == 0x85
    ||| n == 0xA0
    ||| n == 0x1680
    ||| 0x2000 <= n <= 0x200A
    ||| n == 0x2028
    ||| n == 0x2029
    ||| n == 0x202F
    ||| n == 0x205F
    ||| n == 0x3000
}

/// Tests a character for the `White_Space` property.
pub fn char_is_space(c: char) -> (b: bool)
    ensures
        b == is_space(c),
{
    let n: u32 = c as u32;
    (0x09 <= n && n <= 0x0D) || n == 0x20 || n == 0x85 || n == 0xA0 || n == 0x1680 || (0x2000 <= n
        && n <= 0x200A) || n == 0x2028 || n == 0x2029 || n == 0x202F || n == 0x205F || n == 0x3000
}

/// The texts of `items`, each between `before` and `after`, one after another.
pub open spec fn enclosed(items: Seq<Seq<char>>, before: Seq<char>, after: Seq<char>) -> Seq<char>
    decreases items.len(),
{
    if items.len() == 0 {
        Seq::empty()
    } else {
        enclosed(items.drop_last(), before, after) + before + items.last() + after
    }
}

/// The texts of `items` with `between` between each two neighbours.
pub open spec fn joined(items: Seq<Seq<char>>, between: Seq<char>) -> Seq<char>
    decreases items.len(),
{
    if items.len() == 0 {
        Seq::empty()
    } else if items.len() == 1 {
        items[0]
    } else {
        joined(items.drop_last(), between) + between + items.last()
    }
}

/// Writes out `items`, each between `before` and `after`.
pub fn enclose(items: &Vec<String>, before: &str, after: &str) -> (out: String)
    ensures
        out@ == enclosed(items.deep_view(), before@, after@),
{
    let mut out = String::new();
    let n = items.len();
    let mut i: usize = 0;
    assert(items.deep_view().take(0) =~= Seq::empty());
    while i < n
        invariant
            n == items@.len(),
            i <= n,
            out@ == enclosed(items.deep_view().take(i as int), before@, after@),
        decreases n - i,
    {
        out.append(before);
        out.append(items[i].as_str());
        out.append(after);
        proof {
            let upto = items.deep_view().take(i + 1);
            assert(upto.drop_last() =~= items.deep_view().take(i as int));
            assert(upto.last() == items@[i as int]@);
        }
        i = i + 1;
    }
    assert(items.deep_view().take(n as int) =~= items.deep_view());
    out
}

/// Writes out `items` with `between` between each two neighbours.
pub fn join(items: &Vec<String>, between: &str) -> (out: String)
    ensures
        out@ == joined(items.deep_view(), between@),
{
    let mut out = String::new();
    let n = items.len();
    let mut i: usize = 0;
    assert(items.deep_view().take(0) =~= Seq::empty());
    while i < n
        invariant
            n == items@.len(),
            i <= n,
            out@ == joined(items.deep_view().take(i as int), between@),
        decreases n - i,
    {
        if i > 0 {
            out.append(between);
        }
        out.append(items[i].as_str());
        proof {
            let upto = items.deep_view().take(i + 1);
            assert(upto.drop_last() =~= items.deep_view().take(i as int));
            assert(upto.last() == items@[i as int]@);
            if i == 0 {
                assert(out@ =~= upto[0]);
            }
        }
        i = i + 1;
    }
    assert(items.deep_view().take(n as int) =~= items.deep_view());
    out
}

/// The character that writes the digit `d`.
pub open spec fn digit_char(d: nat) -> char
    recommends
        d < 10,
{
    ('0' as u32 + d) as char
}

/// The decimal notation of `n`, without leading zeros.
pub open spec fn decimal(n: nat) -> Seq<char>
    decreases n,
{
    if n < 10 {
        seq![digit_char(n)]
    } else {
        decimal(n / 10).push(digit_char(n % 10))
    }
}

/// Each digit has a character of its own.
proof fn lemma_digit_char(d: nat)
    requires
        d < 10,
    ensures
        digit_char(d) as u32 == '0' as u32 + d,
{
}

/// Different numbers are written differently.
pub proof fn lemma_decimal_tells_apart(a: nat, b: nat)
    requires
        decimal(a) == decimal(b),
    ensures
        a == b,
    decreases a,
{
    lemma_digit_char(a % 10);
    lemma_digit_char(b % 10);
    if a < 10 && b < 10 {
        assert(decimal(a)[0] == digit_char(a));
        assert(decimal(b)[0] == digit_char(b));
    } else if a >= 10 && b >= 10 {
        assert(decimal(a / 10) =~= decimal(a).drop_last());
        assert(decimal(b / 10) =~= decimal(b).drop_last());
        assert(decimal(a).last() == digit_char(a % 10));
        assert(decimal(b).last() == digit_char(b % 10));
        lemma_decimal_tells_apart(a / 10, b / 10);
    } else {
        lemma_decimal_has_digits(a / 10);
        lemma_decimal_has_digits(b / 10);
        if a < 10 {
            assert(decimal(a).len() == 1);
            assert(decimal(b).len() == decimal(b / 10).len() + 1);
        } else {
            assert(decimal(b).len() == 1);
            assert(decimal(a).len() == decimal(a / 10).len() + 1);
        }
    }
}

/// Every number is written with one digit at least.
pub proof fn lemma_decimal_has_digits(n: nat)
    ensures
        decimal(n).len() >= 1,
    decreases n,
{
    if n >= 10 {
        lemma_decimal_has_digits(n / 10);
    }
}

fn push_decimal(n: usize, out: &mut Vec<char>)
    ensures
        final(out)@ == old(out)@ + decimal(n as nat),
    decreases n,
{
    if n >= 10 {
        push_decimal(n / 10, out);
    }
    let d: u8 = (n % 10) as u8;
    let c: char = (48u8 + d) as char;
    assert(c == digit_char((n % 10) as nat));
    out.push(c);
    assert(final(out)@ =~= old(out)@ + decimal(n as nat));
}

/// Writes `n` in decimal notation.
pub fn decimal_of(n: usize) -> (out: String)
    ensures
        out@ == decimal(n as nat),
{
    let mut chars: Vec<char> = Vec::new();
    push_decimal(n, &mut chars);
    assert(chars@ =~= decimal(n as nat));
    string_of(&chars)
}

/// The words of `s`: its maximal runs of characters that are not white space, in order.
pub open spec fn words(s: Seq<char>) -> Seq<Seq<char>>
    decreases s.len(),
{
    if s.len() == 0 {
        Seq::empty()
    } else {
        let before = words(s.drop_last());
        if is_space(s.last()) {
            before
        } else if s.len() >= 2 && !is_space(s[s.len() - 2]) {
            before.drop_last().push(before.last().push(s.last()))
        } else {
            before.push(seq![s.last()])
        }
    }
}

/// Whether `word` has a character at least and none that is white space.
pub open spec fn is_solid(word: Seq<char>) -> bool {
    word.len() > 0 && forall|k: int| 0 <= k < word.len() ==> !is_space(#[trigger] word[k])
}

/// Every word is solid: none is empty, and none holds white space. A text that ends
/// in something else than white space has a last word.
pub proof fn lemma_words_are_solid(s: Seq<char>)
    ensures
        forall|i: int| 0 <= i < words(s).len() ==> is_solid(#[trigger] words(s)[i]),
        s.len() > 0 && !is_space(s.last()) ==> words(s).len() > 0,
    decreases s.len(),
{
    if s.len() > 0 {
        let head = s.drop_last();
        let before = words(head);
        lemma_words_are_solid(head);
        if is_space(s.last()) {
        } else if s.len() >= 2 && !is_space(s[s.len() - 2]) {
            assert(head.last() == s[s.len() - 2]);
            let grown = before.last().push(s.last());
            assert(is_solid(before.last()));
            assert(is_solid(grown)) by {
                assert forall|k: int| 0 <= k < grown.len() implies !is_space(
                    #[trigger] grown[k],
                ) by {
                    if k < before.last().len() {
                        assert(grown[k] == before.last()[k]);
                    }
                }
            }
            assert forall|i: int| 0 <= i < words(s).len() implies is_solid(
                #[trigger] words(s)[i],
            ) by {
                if i < before.len() - 1 {
                    assert(words(s)[i] == before[i]);
                }
            }
        } else {
            assert(is_solid(seq![s.last()]));
            assert forall|i: int| 0 <= i < words(s).len() implies is_solid(
                #[trigger] words(s)[i],
            ) by {
                if i < before.len() {
                    assert(words(s)[i] == before[i]);
                }
            }
        }
    }
}

/// A solid text is its own single word.
pub proof fn lemma_solid_text_is_one_word(s: Seq<char>)
    requires
        is_solid(s),
    ensures
        words(s) == seq![s],
    decreases s.len(),
{
    if s.len() >= 2 {
        let head = s.drop_last();
        assert forall|k: int| 0 <= k < head.len() implies !is_space(#[trigger] head[k]) by {
            assert(head[k] == s[k]);
        }
        lemma_solid_text_is_one_word(head);
        assert(head.last() == s[s.len() - 2]);
        assert(head.push(s.last()) =~= s);
        assert(seq![head].drop_last().push(s) =~= seq![s]);
    } else {
        assert(words(s.drop_last()) =~= Seq::<Seq<char>>::empty());
        assert(seq![s.last()] =~= s);
    }
}

/// A solid text put after a text that is empty or ends in white space is one more
/// word.
pub proof fn lemma_words_after(before: Seq<char>, word: Seq<char>)
    requires
        before.len() == 0 || is_space(before.last()),
        is_solid(word),
    ensures
        words(before + word) == words(before).push(word),
    decreases word.len(),
{
    let whole = before + word;
    let head = word.drop_last();
    assert(whole.drop_last() =~= before + head);
    assert(whole.last() == word.last());
    if head.len() == 0 {
        assert(before + head =~= before);
        assert(seq![word.last()] =~= word);
        if before.len() > 0 {
            assert(whole[whole.len() - 2] == before.last());
        }
    } else {
        assert forall|k: int| 0 <= k < head.len() implies !is_space(#[trigger] head[k]) by {
            assert(head[k] == word[k]);
        }
        lemma_words_after(before, head);
        assert(whole[whole.len() - 2] == head.last());
        assert(head.last() == word[word.len() - 2]);
        assert(head.push(word.last()) =~= word);
        assert(words(before).push(head).drop_last() =~= words(before));
    }
}

/// Solid texts written one after another, each with a space after it, are the words
/// of what was written.
pub proof fn lemma_words_of_spaced(items: Seq<Seq<char>>)
    requires
        forall|i: int| 0 <= i < items.len() ==> is_solid(#[trigger] items[i]),
    ensures
        words(enclosed(items, Seq::empty(), seq![' '])) == items,
        items.len() > 0 ==> enclosed(items, Seq::empty(), seq![' ']).len() > 0 && enclosed(
            items,
            Seq::empty(),
            seq![' '],
        ).last() == ' ',
    decreases items.len(),
{
    if items.len() > 0 {
        let earlier = items.drop_last();
        assert forall|i: int| 0 <= i < earlier.len() implies is_solid(#[trigger] earlier[i]) by {
            assert(earlier[i] == items[i]);
        }
        lemma_words_of_spaced(earlier);
        let before = enclosed(earlier, Seq::empty(), seq![' ']);
        let written = enclosed(items, Seq::empty(), seq![' ']);
        assert(is_solid(items.last()));
        lemma_words_after(before, items.last());
        assert(written =~= (before + items.last()).push(' '));
        assert(written.drop_last() =~= before + items.last());
        assert(earlier.push(items.last()) =~= items);
    } else {
        assert(enclosed(items, Seq::empty(), seq![' ']) =~= Seq::<char>::empty());
        assert(words(Seq::<char>::empty()) =~= items);
    }
}

/// Splits a text into its words.
pub fn split_words(s: &str) -> (out: Vec<String>)
    ensures
        out.deep_view() == words(s@),
{
    let mut out: Vec<String> = Vec::new();
    let mut word = String::new();
    let mut open = false;
    assert(s@.take(0) =~= Seq::empty());
    for c in it: s.chars()
        invariant
            it.seq() == s@,
            open <==> (it.index() > 0 && !is_space(s@[it.index() - 1])),
            !open ==> out.deep_view() == words(s@.take(it.index() as int)),
            open ==> out.deep_view().push(word@) == words(s@.take(it.index() as int)),
    {
        proof {
            let k = it.index() as int;
            assert(s@.take(k + 1).drop_last() =~= s@.take(k));
            assert(s@.take(k + 1).last() == c);
            if k > 0 {
                assert(s@.take(k + 1)[k - 1] == s@[k - 1]);
            }
        }
        let ghost before = out.deep_view();
        let ghost run = word@;
        if char_is_space(c) {
            if open {
                out.push(word);
                assert(out.deep_view() =~= before.push(run));
                word = String::new();
                open = false;
            }
        } else {
            if !open {
                word = String::new();
            }
            push_char(&mut word, c);
            proof {
                let w = words(s@.take(it.index() as int));
                if open {
                    assert(w.drop_last() =~= before);
                    assert(w.last() == run);
                } else {
                    assert(word@ =~= seq![c]);
                }
            }
            open = true;
        }
    }
    assert(s@.take(s@.len() as int) =~= s@);
    if open {
        let ghost before = out.deep_view();
        out.push(word);
        assert(out.deep_view() =~= before.push(word@));
    }
    out
}

/// `c` with an ASCII capital letter turned into its small letter.
pub open spec fn ascii_lower(c: char) -> char {
    if 'A' <= c <= 'Z' {
        (c as u32 + 32) as char
    } else {
        c
    }
}

/// Whether two texts are the same but for the case of their ASCII letters.
pub open spec fn same_ignoring_ascii_case(a: Seq<char>, b: Seq<char>) -> bool {
    &&& a.len() == b.len()
    &&& forall|i: int| 0 <= i < a.len() ==> ascii_lower(a[i]) == ascii_lower(b[i])
}

fn lower(c: char) -> (out: u32)
    ensures
        out == ascii_lower(c) as u32,
{
    let n: u32 = c as u32;
    if 65 <= n && n <= 90 {
        n + 32
    } else {
        n
    }
}

/// Compares two texts without regard to the case of their ASCII letters.
pub fn eq_ignoring_ascii_case(a: &str, b: &str) -> (same: bool)
    ensures
        same == same_ignoring_ascii_case(a@, b@),
{
    let x = chars_of(a);
    let y = chars_of(b);
    if x.len() != y.len() {
        return false;
    }
    let n = x.len();
    let mut i: usize = 0;
    while i < n
        invariant
            n == x@.len(),
            n == y@.len(),
            x@ == a@,
            y@ == b@,
            i <= n,
            forall|k: int| 0 <= k < i ==> ascii_lower(a@[k]) == ascii_lower(b@[k]),
        decreases n - i,
    {
        if lower(x[i]) != lower(y[i]) {
            return false;
        }
        i = i + 1;
    }
    true
}

/// Whether `c` is one of the ten ASCII digits.
pub open spec fn is_digit(c: char) -> bool {
    '0' <= c <= '9'
}

/// Whether `s` holds digits only.
pub open spec fn all_digits(s: Seq<char>) -> bool {
    forall|i: int| 0 <= i < s.len() ==> is_digit(#[trigger] s[i])
}

/// The number that a digit stands for.
pub open spec fn digit_value(c: char) -> nat
    recommends
        is_digit(c),
{
    (c as u32 - '0' as u32) as nat
}

/// The number that a run of digits writes in decimal notation.
pub open spec fn digits_value(s: Seq<char>) -> nat
    decreases s.len(),
{
    if s.len() == 0 {
        0
    } else {
        10 * digits_value(s.drop_last()) + digit_value(s.last())
    }
}

/// The number that `s` writes: an optional plus sign, then one digit or more, the
/// whole no more than `limit`. Anything else writes no number.
pub open spec fn number(s: Seq<char>, limit: nat) -> Option<nat> {
    let digits = if s.len() > 0 && s[0] == '+' {
        s.skip(1)
    } else {
        s
    };
    if digits.len() > 0 && all_digits(digits) && digits_value(digits) <= limit {
        Some(digits_value(digits))
    } else {
        None
    }
}

proof fn lemma_digits_value_grows(s: Seq<char>, k: int)
    requires
        0 <= k <= s.len(),
    ensures
        digits_value(s.take(k)) <= digits_value(s),
    decreases s.len() - k,
{
    if k < s.len() {
        lemma_digits_value_grows(s, k + 1);
        assert(s.take(k + 1).drop_last() =~= s.take(k));
    } else {
        assert(s.take(k) =~= s);
    }
}

/// Reads the number that `s` writes, if it writes one that a `usize` can hold.
pub fn parse_number(s: &Vec<char>) -> (out: Option<usize>)
    ensures
        out == match number(s@, usize::MAX as nat) {
            Some(n) => Some(n as usize),
            None => None,
        },
{
    let n = s.len();
    let start: usize = if n > 0 && s[0] == '+' {
        1
    } else {
        0
    };
    if start == n {
        return None;
    }
    let ghost digits = if s@.len() > 0 && s@[0] == '+' {
        s@.skip(1)
    } else {
        s@
    };
    let mut value: usize = 0;
    let mut i: usize = start;
    assert(digits.take(0) =~= Seq::empty());
    assert(digits =~= s@.skip(start as int));
    while i < n
        invariant
            n == s@.len(),
            start <= i <= n,
            start < n,
            digits == s@.skip(start as int),
            digits == if s@.len() > 0 && s@[0] == '+' {
                s@.skip(1)
            } else {
                s@
            },
            all_digits(digits.take(i - start)),
            value == digits_value(digits.take(i - start)),
        decreases n - i,
    {
        let c = s[i];
        if !('0' <= c && c <= '9') {
            assert(!is_digit(digits[i - start]));
            return None;
        }
        let d: usize = (c as u32 - '0' as u32) as usize;
        proof {
            let upto = digits.take(i - start + 1);
            assert(upto.drop_last() =~= digits.take(i - start));
            assert(upto.last() == c);
            assert forall|k: int| 0 <= k < upto.len() implies is_digit(#[trigger] upto[k]) by {
                if k < i - start {
                    assert(upto[k] == digits.take(i - start)[k]);
                }
            }
            lemma_digits_value_grows(digits, i - start + 1);
        }
        let scaled = match value.checked_mul(10) {
            Some(v) => v,
            None => {
                return None;
            },
        };
        value = match scaled.checked_add(d) {
            Some(v) => v,
            None => {
                return None;
            },
        };
        i = i + 1;
    }
    assert(digits.take(n - start) =~= digits);
    Some(value)
}

/// The index of the first item of `s` that `hit` holds of; the length of `s` if there
/// is none.
pub open spec fn position<A>(s: Seq<A>, hit: spec_fn(A) -> bool) -> int
    decreases s.len(),
{
    if s.len() == 0 {
        0
    } else if hit(s[0]) {
        0
    } else {
        1 + position(s.drop_first(), hit)
    }
}

/// `position` is the least index that `hit` holds at, if any.
pub proof fn lemma_position<A>(s: Seq<A>, hit: spec_fn(A) -> bool)
    ensures
        0 <= position(s, hit) <= s.len(),
        forall|i: int| 0 <= i < position(s, hit) ==> !hit(#[trigger] s[i]),
        position(s, hit) < s.len() ==> hit(s[position(s, hit)]),
    decreases s.len(),
{
    if s.len() > 0 && !hit(s[0]) {
        let rest = s.drop_first();
        lemma_position(rest, hit);
        assert forall|i: int| 0 <= i < position(s, hit) implies !hit(#[trigger] s[i]) by {
            if i > 0 {
                assert(s[i] == rest[i - 1]);
            }
        }
    }
}

/// An index that `hit` holds at and at none before is the `position`.
pub proof fn lemma_position_is<A>(s: Seq<A>, hit: spec_fn(A) -> bool, k: int)
    requires
        0 <= k <= s.len(),
        forall|i: int| 0 <= i < k ==> !hit(#[trigger] s[i]),
        k < s.len() ==> hit(s[k]),
    ensures
        position(s, hit) == k,
{
    lemma_position(s, hit);
    let p = position(s, hit);
    if p < k {
        assert(!hit(s[p]));
    } else if k < p {
        assert(!hit(s[k]));
    }
}

/// The text that `bytes` are the UTF-8 encoding of, if they are one.
pub open spec fn text_of(bytes: Seq<u8>) -> Option<Seq<char>> {
    if valid_utf8(bytes) {
        Some(decode_utf8(bytes))
    } else {
        None
    }
}

/// The UTF-8 encoding of `text`.
pub open spec fn bytes_of(text: Seq<char>) -> Seq<u8> {
    encode_utf8(text)
}

/// `String::from_utf8`: the string that `bytes` encode in UTF-8, or nothing if they do
/// not encode one.
#[verifier::external_body]
pub(crate) fn utf8_text(bytes: Vec<u8>) -> (out: Option<String>)
    ensures
        match out {
            Some(text) => text_of(bytes@) == Some(text@),
            None => text_of(bytes@) is None,
        },
{
    String::from_utf8(bytes).ok()
}

/// The UTF-8 encoding of a text.
pub fn utf8_bytes(text: &str) -> (out: Vec<u8>)
    ensures
        out@ == bytes_of(text@),
{
    text.as_bytes_vec()
}

/// Encoding a text and decoding the bytes gives the text back.
pub proof fn lemma_text_roundtrip(text: Seq<char>)
    ensures
        text_of(bytes_of(text)) == Some(text),
{
    vstd::utf8::encode_utf8_valid_utf8(text);
    vstd::utf8::encode_utf8_decode_utf8(text);
}

/// Whether two runs of bytes are the same.
pub fn same_bytes(a: &[u8], b: &[u8]) -> (same: bool)
    ensures
        same == (a@ == b@),
{
    if a.len() != b.len() {
        return false;
    }
    let n = a.len();
    let mut i: usize = 0;
    while i < n
        invariant
            n == a@.len(),
            n == b@.len(),
            i <= n,
            a@.take(i as int) == b@.take(i as int),
        decreases n - i,
    {
        if a[i] != b[i] {
            return false;
        }
        assert(a@.take(i + 1) =~= a@.take(i as int).push(a@[i as int]));
        assert(b@.take(i + 1) =~= b@.take(i as int).push(b@[i as int]));
        i = i + 1;
    }
    assert(a@.take(n as int) =~= a@);
    assert(b@.take(n as int) =~= b@);
    true
}

/// Whether `bytes` are the UTF-8 encoding of `text`.
pub fn is_text(bytes: &Vec<u8>, text: &str) -> (same: bool)
    ensures
        same == (bytes@ == bytes_of(text@)),
{
    same_bytes(bytes.as_slice(), text.as_bytes())
}

/// A copy of a list of strings.
pub fn clone_strings(items: &Vec<String>) -> (out: Vec<String>)
    ensures
        out.deep_view() == items.deep_view(),
{
    let n = items.len();
    let mut out: Vec<String> = Vec::new();
    let mut i: usize = 0;
    while i < n
        invariant
            n == items@.len(),
            i <= n,
            out@.len() == i,
            forall|k: int| 0 <= k < i ==> out@[k]@ == items@[k]@,
        decreases n - i,
    {
        out.push(items[i].clone());
        i = i + 1;
    }
    assert(out.deep_view() =~= items.deep_view());
    out
}

/// Whether two texts are the same.
pub fn same_text(a: &str, b: &str) -> (same: bool)
    ensures
        same == (a@ == b@),
{
    proof {
        lemma_text_roundtrip(a@);
        lemma_text_roundtrip(b@);
    }
    same_bytes(a.as_bytes(), b.as_bytes())
}

} // verus!
