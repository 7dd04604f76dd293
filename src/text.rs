//! Character-level helpers for reading line-oriented text: white space,
//! words, decimal integers and the syntax of decimal floating-point numbers.
use vstd::prelude::*;

verus! {

/// The characters with the Unicode `White_Space` property.
pub open spec fn is_white_space(c: char) -> bool {
    let u = c as u32;
    ||| 0x09 <= u <= 0x0d
    ||| u == 0x20
    ||| u == 0x85
    ||| u == 0xa0
    ||| u == 0x1680
    ||| 0x2000 <= u <= 0x200a
    ||| u == 0x2028
    ||| u == 0x2029
    ||| u == 0x202f
    ||| u == 0x205f
    ||| u == 0x3000
}

pub open spec fn is_digit(c: char) -> bool {
    '0' <= c <= '9'
}

/// The classes of characters that a run of characters is scanned for.
pub enum CharClass {
    /// Anything but white space.
    Word,
    /// An ASCII decimal digit.
    Digit,
    /// Anything but `/`.
    NotSlash,
    /// Anything but a line feed.
    NotNewline,
}

pub open spec fn in_class(c: char, class: CharClass) -> bool {
    match class {
        CharClass::Word => !is_white_space(c),
        CharClass::Digit => is_digit(c),
        CharClass::NotSlash => c != '/',
        CharClass::NotNewline => c != '\n',
    }
}

/// The length of the longest prefix of `s` whose characters are all in `class`.
pub open spec fn run_len(s: Seq<char>, class: CharClass) -> nat
    decreases s.len(),
{
    if s.len() > 0 && in_class(s[0], class) {
        1 + run_len(s.drop_first(), class)
    } else {
        0
    }
}

/// The pieces of `t` between line feeds, in order. A text that ends with a
/// line feed has an empty last piece.
pub open spec fn lines(t: Seq<char>) -> Seq<Seq<char>>
    decreases t.len(),
{
    let k = run_len(t, CharClass::NotNewline);
    if k < t.len() {
        seq![t.take(k as int)] + lines(t.skip(k + 1 as int))
    } else {
        seq![t]
    }
}

/// `s` with its leading white space removed.
pub open spec fn trim_start(s: Seq<char>) -> Seq<char>
    decreases s.len(),
{
    if s.len() > 0 && is_white_space(s[0]) {
        trim_start(s.drop_first())
    } else {
        s
    }
}

/// `s` with its trailing white space removed.
pub open spec fn trim_end(s: Seq<char>) -> Seq<char>
    decreases s.len(),
{
    if s.len() > 0 && is_white_space(s.last()) {
        trim_end(s.drop_last())
    } else {
        s
    }
}

/// `s` with white space removed at both ends.
pub open spec fn trim(s: Seq<char>) -> Seq<char> {
    trim_end(trim_start(s))
}

/// The maximal runs of non-white-space characters of `s`, in order.
pub open spec fn words(s: Seq<char>) -> Seq<Seq<char>>
    decreases s.len(),
{
    if s.len() == 0 {
        seq![]
    } else if is_white_space(s[0]) {
        words(s.drop_first())
    } else {
        let k = run_len(s, CharClass::Word);
        if 0 < k <= s.len() {
            seq![s.take(k as int)] + words(s.skip(k as int))
        } else {
            seq![]
        }
    }
}


pub open spec fn digit_value(c: char) -> int {
    (c as u32) as int - ('0' as u32) as int
}

pub open spec fn all_digits(s: Seq<char>) -> bool {
    forall|i: int| 0 <= i < s.len() ==> is_digit(#[trigger] s[i])
}

/// The number that the decimal digits `s` write.
pub open spec fn digits_value(s: Seq<char>) -> int
    decreases s.len(),
{
    if s.len() == 0 {
        0
    } else {
        digits_value(s.drop_last()) * 10 + digit_value(s.last())
    }
}

pub open spec fn is_sign(c: char) -> bool {
    c == '+' || c == '-'
}

/// `s` without its leading sign, if it has one.
pub open spec fn unsigned_part(s: Seq<char>) -> Seq<char> {
    if s.len() > 0 && is_sign(s[0]) {
        s.drop_first()
    } else {
        s
    }
}

/// The integer that `s` writes as an optional sign followed by one or more
/// decimal digits, or `None` where `s` has another shape.
pub open spec fn decimal_value(s: Seq<char>) -> Option<int> {
    let d = unsigned_part(s);
    if d.len() > 0 && all_digits(d) {
        if s[0] == '-' {
            Some(-digits_value(d))
        } else {
            Some(digits_value(d))
        }
    } else {
        None
    }
}

/// What reading `s` as an `i32` gives: its decimal value where that fits.
pub open spec fn i32_value(s: Seq<char>) -> Option<i32> {
    match decimal_value(s) {
        Some(v) => if i32::MIN <= v <= i32::MAX {
            Some(v as i32)
        } else {
            None
        },
        None => None,
    }
}

/// `c` is the lower-case ASCII letter `lower`, or its upper-case form.
pub open spec fn same_letter(c: char, lower: char) -> bool {
    c == lower || (c as u32) as int + 32 == (lower as u32) as int
}

pub open spec fn eq_ignore_case(s: Seq<char>, lower: Seq<char>) -> bool {
    &&& s.len() == lower.len()
    &&& forall|i: int| 0 <= i < s.len() ==> same_letter(#[trigger] s[i], lower[i])
}

/// An optional sign followed by one or more digits.
pub open spec fn exponent_syntax(s: Seq<char>) -> bool {
    let d = unsigned_part(s);
    d.len() > 0 && all_digits(d)
}

/// Digits with an optional decimal point, at least one digit in all,
/// then optionally `e` or `E` and an exponent.
pub open spec fn number_syntax(s: Seq<char>) -> bool {
    let k = run_len(s, CharClass::Digit);
    let rest = s.skip(k as int);
    let has_point = rest.len() > 0 && rest[0] == '.';
    let f = if has_point {
        run_len(rest.drop_first(), CharClass::Digit)
    } else {
        0
    };
    let after = if has_point {
        rest.skip(1 + f as int)
    } else {
        rest
    };
    &&& k + f > 0
    &&& after.len() == 0 || (same_letter(after[0], 'e') && exponent_syntax(after.drop_first()))
}

/// The decimal syntax of a floating-point number: an optional sign, then
/// `inf`, `infinity` or `nan` in any case, or a number.
pub open spec fn float_syntax(s: Seq<char>) -> bool {
    let b = unsigned_part(s);
    ||| eq_ignore_case(b, seq!['i', 'n', 'f'])
    ||| eq_ignore_case(b, seq!['i', 'n', 'f', 'i', 'n', 'i', 't', 'y'])
    ||| eq_ignore_case(b, seq!['n', 'a', 'n'])
    ||| number_syntax(b)
}

/// Collects the characters of `text` in order.
pub fn chars_of(text: &str) -> (cs: Vec<char>)
    ensures
        cs@ == text@,
{
    let mut cs: Vec<char> = Vec::new();
    for c in it: text.chars()
        invariant
            cs@ == it.seq().take(it.index()),
    {
        cs.push(c);
    }
    cs
}

/// Copies the characters of `cs` in `lo..hi`.
pub fn copy_span(cs: &Vec<char>, lo: usize, hi: usize) -> (r: Vec<char>)
    requires
        lo <= hi <= cs.len(),
    ensures
        r@ == cs@.subrange(lo as int, hi as int),
{
    let mut r: Vec<char> = Vec::new();
    let mut i = lo;
    while i < hi
        invariant
            lo <= i <= hi <= cs.len(),
            r@ == cs@.subrange(lo as int, i as int),
        decreases hi - i,
    {
        r.push(cs[i]);
        i += 1;
        assert(r@ =~= cs@.subrange(lo as int, i as int));
    }
    r
}

/// Tells whether `c` has the Unicode `White_Space` property.
pub fn white_space(c: char) -> (r: bool)
    ensures
        r == is_white_space(c),
{
    let u = c as u32;
    (0x09 <= u && u <= 0x0d) || u == 0x20 || u == 0x85 || u == 0xa0 || u == 0x1680 || (0x2000
        <= u && u <= 0x200a) || u == 0x2028 || u == 0x2029 || u == 0x202f || u == 0x205f || u
        == 0x3000
}

fn char_in_class(c: char, class: &CharClass) -> (r: bool)
    ensures
        r == in_class(c, *class),
{
    match class {
        CharClass::Word => !white_space(c),
        CharClass::Digit => '0' <= c && c <= '9',
        CharClass::NotSlash => c != '/',
        CharClass::NotNewline => c != '\n',
    }
}

proof fn lemma_run_len(s: Seq<char>, class: CharClass, k: int)
    requires
        0 <= k <= s.len(),
        forall|j: int| 0 <= j < k ==> in_class(#[trigger] s[j], class),
        k == s.len() || !in_class(s[k], class),
    ensures
        run_len(s, class) == k,
    decreases k,
{
    if k > 0 {
        lemma_run_len(s.drop_first(), class, k - 1);
    }
}

/// The end of the run of characters in `class` that starts at `lo`,
/// looking no further than `hi`.
pub fn scan(cs: &Vec<char>, lo: usize, hi: usize, class: CharClass) -> (e: usize)
    requires
        lo <= hi <= cs.len(),
    ensures
        lo <= e <= hi,
        e - lo == run_len(cs@.subrange(lo as int, hi as int), class),
        e == hi || !in_class(cs@[e as int], class),
        forall|j: int| lo <= j < e ==> in_class(#[trigger] cs@[j], class),
{
    let mut e = lo;
    while e < hi && char_in_class(cs[e], &class)
        invariant
            lo <= e <= hi <= cs.len(),
            forall|j: int| lo <= j < e ==> in_class(#[trigger] cs@[j], class),
        decreases hi - e,
    {
        e += 1;
    }
    proof {
        let s = cs@.subrange(lo as int, hi as int);
        assert forall|j: int| 0 <= j < e - lo implies in_class(#[trigger] s[j], class) by {
            assert(s[j] == cs@[lo + j]);
        }
        lemma_run_len(s, class, e - lo);
    }
    e
}

/// The bounds of `cs[lo..hi]` with white space removed at both ends.
pub fn trim_span(cs: &Vec<char>, lo: usize, hi: usize) -> (r: (usize, usize))
    requires
        lo <= hi <= cs.len(),
    ensures
        lo <= r.0 <= r.1 <= hi,
        cs@.subrange(r.0 as int, r.1 as int) == trim(cs@.subrange(lo as int, hi as int)),
{
    let mut a = lo;
    while a < hi && white_space(cs[a])
        invariant
            lo <= a <= hi <= cs.len(),
            trim_start(cs@.subrange(lo as int, hi as int)) == trim_start(
                cs@.subrange(a as int, hi as int),
            ),
        decreases hi - a,
    {
        assert(cs@.subrange(a as int, hi as int).drop_first() =~= cs@.subrange(
            a + 1,
            hi as int,
        ));
        a += 1;
    }
    let mut b = hi;
    while a < b && white_space(cs[b - 1])
        invariant
            lo <= a <= b <= hi <= cs.len(),
            trim_end(cs@.subrange(a as int, hi as int)) == trim_end(
                cs@.subrange(a as int, b as int),
            ),
        decreases b - a,
    {
        assert(cs@.subrange(a as int, b as int).drop_last() =~= cs@.subrange(
            a as int,
            b - 1,
        ));
        b -= 1;
    }
    (a, b)
}

/// The bounds of the words of `cs[lo..hi]`, in order.
pub fn word_spans(cs: &Vec<char>, lo: usize, hi: usize) -> (r: Vec<(usize, usize)>)
    requires
        lo <= hi <= cs.len(),
    ensures
        r.len() == words(cs@.subrange(lo as int, hi as int)).len(),
        forall|k: int|
            0 <= k < r.len() ==> {
                &&& lo <= (#[trigger] r[k]).0 <= r[k].1 <= hi
                &&& cs@.subrange(r[k].0 as int, r[k].1 as int) == words(
                    cs@.subrange(lo as int, hi as int),
                )[k]
            },
{
    let ghost all = words(cs@.subrange(lo as int, hi as int));
    let mut r: Vec<(usize, usize)> = Vec::new();
    let mut i = lo;
    while i < hi
        invariant
            lo <= i <= hi <= cs.len(),
            all == words(cs@.subrange(lo as int, hi as int)),
            r.len() + words(cs@.subrange(i as int, hi as int)).len() == all.len(),
            forall|k: int|
                0 <= k < r.len() ==> {
                    &&& lo <= (#[trigger] r[k]).0 <= r[k].1 <= hi
                    &&& cs@.subrange(r[k].0 as int, r[k].1 as int) == all[k]
                },
            forall|k: int|
                0 <= k < words(cs@.subrange(i as int, hi as int)).len() ==> all[r.len() + k]
                    == #[trigger] words(cs@.subrange(i as int, hi as int))[k],
        decreases hi - i,
    {
        let ghost s = cs@.subrange(i as int, hi as int);
        if white_space(cs[i]) {
            assert(s.drop_first() =~= cs@.subrange(i + 1, hi as int));
            i += 1;
        } else {
            let e = scan(cs, i, hi, CharClass::Word);
            proof {
                assert(s[0] == cs@[i as int]);
                assert(s.take(e - i) =~= cs@.subrange(i as int, e as int));
                assert(s.skip(e - i) =~= cs@.subrange(e as int, hi as int));
                let rest = words(cs@.subrange(e as int, hi as int));
                assert(words(s) == seq![cs@.subrange(i as int, e as int)] + rest);
                assert(words(s)[0] == cs@.subrange(i as int, e as int));
                assert forall|k: int| 0 <= k < rest.len() implies all[r.len() + 1 + k]
                    == #[trigger] rest[k] by {
                    assert(words(s)[k + 1] == rest[k]);
                }
            }
            r.push((i, e));
            i = e;
        }
    }
    r
}

proof fn lemma_digits_value_nonneg(s: Seq<char>)
    requires
        all_digits(s),
    ensures
        digits_value(s) >= 0,
    decreases s.len(),
{
    if s.len() > 0 {
        lemma_digits_value_nonneg(s.drop_last());
    }
}

proof fn lemma_digits_prefix_le(s: Seq<char>, k: int)
    requires
        all_digits(s),
        0 <= k <= s.len(),
    ensures
        digits_value(s.take(k)) <= digits_value(s),
    decreases s.len(),
{
    if k < s.len() {
        lemma_digits_value_nonneg(s.drop_last());
        assert(s.drop_last().take(k) =~= s.take(k));
        lemma_digits_prefix_le(s.drop_last(), k);
    } else {
        assert(s.take(k) =~= s);
    }
}

proof fn lemma_all_digits_run(s: Seq<char>)
    ensures
        all_digits(s) <==> run_len(s, CharClass::Digit) == s.len(),
    decreases s.len(),
{
    if s.len() > 0 {
        lemma_all_digits_run(s.drop_first());
        if all_digits(s) {
            assert(all_digits(s.drop_first()));
        }
        if run_len(s, CharClass::Digit) == s.len() {
            assert forall|i: int| 0 <= i < s.len() implies is_digit(#[trigger] s[i]) by {
                if i > 0 {
                    assert(s[i] == s.drop_first()[i - 1]);
                }
            }
        }
    }
}

/// Reads `cs[lo..hi]` as an `i32`, as `str::parse::<i32>` does.
pub fn parse_i32(cs: &Vec<char>, lo: usize, hi: usize) -> (r: Option<i32>)
    requires
        lo <= hi <= cs.len(),
    ensures
        r == i32_value(cs@.subrange(lo as int, hi as int)),
{
    let ghost s = cs@.subrange(lo as int, hi as int);
    let negative = lo < hi && cs[lo] == '-';
    let start = if lo < hi && (cs[lo] == '+' || cs[lo] == '-') {
        lo + 1
    } else {
        lo
    };
    let ghost d = cs@.subrange(start as int, hi as int);
    assert(unsigned_part(s) =~= d);
    if start == hi {
        return None;
    }
    let mut mag: u64 = 0;
    let mut j = start;
    while j < hi
        invariant
            lo <= start <= j <= hi <= cs.len(),
            start < hi,
            d == cs@.subrange(start as int, hi as int),
            unsigned_part(cs@.subrange(lo as int, hi as int)) == d,
            negative == (cs@.subrange(lo as int, hi as int)[0] == '-'),
            all_digits(cs@.subrange(start as int, j as int)),
            mag == digits_value(cs@.subrange(start as int, j as int)),
            mag <= 0x8000_0000,
        decreases hi - j,
    {
        let c = cs[j];
        if !('0' <= c && c <= '9') {
            assert(d[j - start] == c);
            assert(!all_digits(d));
            return None;
        }
        proof {
            assert(cs@.subrange(start as int, j + 1).drop_last() =~= cs@.subrange(
                start as int,
                j as int,
            ));
        }
        mag = mag * 10 + (c as u64 - '0' as u64);
        j += 1;
        if mag > 0x8000_0000 {
            proof {
                if all_digits(d) {
                    assert(d.take(j - start) =~= cs@.subrange(start as int, j as int));
                    lemma_digits_prefix_le(d, j - start);
                    assert(digits_value(d) > 0x8000_0000);
                }
            }
            return None;
        }
    }
    assert(d =~= cs@.subrange(start as int, j as int));
    if negative {
        Some((0 - mag as i64) as i32)
    } else if mag <= 0x7fff_ffff {
        Some(mag as i32)
    } else {
        None
    }
}

/// Tells whether `cs[lo..hi]` is, letter for letter and in any case, the
/// lower-case word `lower`.
fn span_eq_ignore_case(cs: &Vec<char>, lo: usize, hi: usize, lower: &[char]) -> (r: bool)
    requires
        lo <= hi <= cs.len(),
    ensures
        r == eq_ignore_case(cs@.subrange(lo as int, hi as int), lower@),
{
    if hi - lo != lower.len() {
        return false;
    }
    let mut i: usize = 0;
    while i < lower.len()
        invariant
            hi - lo == lower.len(),
            lo <= hi <= cs.len(),
            0 <= i <= lower.len(),
            forall|j: int|
                0 <= j < i ==> same_letter(#[trigger] cs@[lo + j], lower@[j]),
        decreases lower.len() - i,
    {
        let c = cs[lo + i];
        let l = lower[i];
        if !(c == l || (c as u32) as u64 + 32 == (l as u32) as u64) {
            assert(cs@.subrange(lo as int, hi as int)[i as int] == c);
            return false;
        }
        i += 1;
    }
    assert forall|j: int| 0 <= j < hi - lo implies same_letter(
        #[trigger] cs@.subrange(lo as int, hi as int)[j],
        lower@[j],
    ) by {
        assert(cs@.subrange(lo as int, hi as int)[j] == cs@[lo + j]);
    }
    true
}

/// Tells whether `cs[lo..hi]` has the decimal syntax of a floating-point
/// number, the syntax that `str::parse::<f32>` accepts.
pub fn float_token(cs: &Vec<char>, lo: usize, hi: usize) -> (r: bool)
    requires
        lo <= hi <= cs.len(),
    ensures
        r == float_syntax(cs@.subrange(lo as int, hi as int)),
{
    let ghost s = cs@.subrange(lo as int, hi as int);
    let b0 = if lo < hi && (cs[lo] == '+' || cs[lo] == '-') {
        lo + 1
    } else {
        lo
    };
    let ghost b = cs@.subrange(b0 as int, hi as int);
    assert(unsigned_part(s) =~= b);
    let inf = ['i', 'n', 'f'];
    let infinity = ['i', 'n', 'f', 'i', 'n', 'i', 't', 'y'];
    let nan = ['n', 'a', 'n'];
    assert(inf@ =~= seq!['i', 'n', 'f']);
    assert(infinity@ =~= seq!['i', 'n', 'f', 'i', 'n', 'i', 't', 'y']);
    assert(nan@ =~= seq!['n', 'a', 'n']);
    let named = span_eq_ignore_case(cs, b0, hi, &inf) || span_eq_ignore_case(cs, b0, hi, &infinity)
        || span_eq_ignore_case(cs, b0, hi, &nan);
    named || number_token(cs, b0, hi)
}

fn number_token(cs: &Vec<char>, b0: usize, hi: usize) -> (r: bool)
    requires
        b0 <= hi <= cs.len(),
    ensures
        r == number_syntax(cs@.subrange(b0 as int, hi as int)),
{
    let ghost b = cs@.subrange(b0 as int, hi as int);
    let k_end = scan(cs, b0, hi, CharClass::Digit);
    let ghost rest = b.skip(k_end - b0);
    assert(rest =~= cs@.subrange(k_end as int, hi as int));
    let has_point = k_end < hi && cs[k_end] == '.';
    let mut after = k_end;
    let mut mantissa = k_end - b0;
    if has_point {
        assert(rest.drop_first() =~= cs@.subrange(k_end + 1, hi as int));
        let f_end = scan(cs, k_end + 1, hi, CharClass::Digit);
        assert(rest.skip(1 + (f_end - k_end - 1)) =~= cs@.subrange(f_end as int, hi as int));
        mantissa = mantissa + (f_end - k_end - 1);
        after = f_end;
    }
    let ghost after_s = cs@.subrange(after as int, hi as int);
    if mantissa == 0 {
        return false;
    }
    if after == hi {
        return true;
    }
    let c = cs[after];
    assert(after_s[0] == c);
    if !(c == 'e' || (c as u32) as u64 + 32 == ('e' as u32) as u64) {
        return false;
    }
    assert(after_s.drop_first() =~= cs@.subrange(after + 1, hi as int));
    let e0 = if after + 1 < hi && (cs[after + 1] == '+' || cs[after + 1] == '-') {
        after + 2
    } else {
        after + 1
    };
    let ghost ed = cs@.subrange(e0 as int, hi as int);
    assert(unsigned_part(after_s.drop_first()) =~= ed);
    let e_end = scan(cs, e0, hi, CharClass::Digit);
    proof {
        lemma_all_digits_run(ed);
    }
    e_end == hi && e0 < hi
}

} // verus!
