//! The values that a request's endpoint parameters take.
use vstd::prelude::*;
use crate::text::chars_of;

verus! {

/// The value of one endpoint parameter. A number with a fractional part or an
/// exponent is held as the text that spells it.
#[allow(non_camel_case_types)]
pub enum Data {
    STRING(String),
    INT(i64),
    FLOAT(String),
    UNDEFINED,
}

/// What a `Data` holds, with strings taken by their characters.
pub enum DataView {
    Str(Seq<char>),
    Int(i64),
    Float(Seq<char>),
    Undefined,
}

impl View for Data {
    type V = DataView;

    open spec fn view(&self) -> DataView {
        match self {
            Data::STRING(s) => DataView::Str(s@),
            Data::INT(v) => DataView::Int(*v),
            Data::FLOAT(s) => DataView::Float(s@),
            Data::UNDEFINED => DataView::Undefined,
        }
    }
}

/// An ASCII decimal digit.
pub open spec fn is_digit(c: char) -> bool {
    '0' <= c <= '9'
}

/// Every character of `s` is a decimal digit.
pub open spec fn all_digits(s: Seq<char>) -> bool {
    forall|i: int| 0 <= i < s.len() ==> is_digit(#[trigger] s[i])
}

/// `s` without one leading `+` or `-`.
pub open spec fn strip_sign(s: Seq<char>) -> Seq<char> {
    if s.len() > 0 && (s[0] == '+' || s[0] == '-') {
        s.drop_first()
    } else {
        s
    }
}

/// The number that the decimal digits `d` spell.
pub open spec fn decimal_value(d: Seq<char>) -> int
    decreases d.len(),
{
    if d.len() == 0 {
        0
    } else {
        decimal_value(d.drop_last()) * 10 + (d.last() as int - '0' as int)
    }
}

/// What `str::parse::<i64>` gives for `s`: an optional sign followed by at least
/// one decimal digit and nothing else, whose value fits in an `i64`.
pub open spec fn decimal_i64(s: Seq<char>) -> Option<i64> {
    let d = strip_sign(s);
    let v = if s.len() > 0 && s[0] == '-' {
        -decimal_value(d)
    } else {
        decimal_value(d)
    };
    if d.len() > 0 && all_digits(d) && i64::MIN <= v <= i64::MAX {
        Some(v as i64)
    } else {
        None
    }
}

/// `str::parse::<i64>`, whose documentation gives the grammar above: an optional
/// `+` or `-` followed by decimal digits only; overflow is an error.
#[verifier::external_body]
fn parse_i64(s: &str) -> (res: Option<i64>)
    ensures
        res == decimal_i64(s@),
{
    s.parse::<i64>().ok()
}

/// `c` in lower case, for ASCII letters.
pub open spec fn ascii_lower(c: char) -> char {
    if 'A' <= c <= 'Z' {
        ((c as u32) + 32) as char
    } else {
        c
    }
}

/// `s` spells the lower-case `word`, ignoring ASCII case.
pub open spec fn same_word(s: Seq<char>, word: Seq<char>) -> bool {
    s.len() == word.len() && forall|i: int| 0 <= i < s.len() ==> ascii_lower(#[trigger] s[i])
        == word[i]
}

/// Digits with at most one `.` among them, and at least one digit.
pub open spec fn is_mantissa(m: Seq<char>) -> bool {
    &&& forall|i: int| 0 <= i < m.len() ==> is_digit(#[trigger] m[i]) || m[i] == '.'
    &&& forall|i: int, j: int| 0 <= i < j < m.len() ==> !(#[trigger] m[i] == '.' && #[trigger] m[j] == '.')
    &&& exists|i: int| 0 <= i < m.len() && is_digit(#[trigger] m[i])
}

/// An `e` or `E`, an optional sign, and at least one digit.
pub open spec fn is_exponent(x: Seq<char>) -> bool {
    &&& x.len() > 0
    &&& (x[0] == 'e' || x[0] == 'E')
    &&& strip_sign(x.drop_first()).len() > 0
    &&& all_digits(strip_sign(x.drop_first()))
}

/// A mantissa, optionally followed by an exponent.
pub open spec fn is_number(s: Seq<char>) -> bool {
    exists|k: int|
        0 <= k <= s.len() && is_mantissa(#[trigger] s.subrange(0, k)) && (k == s.len()
            || is_exponent(s.subrange(k, s.len() as int)))
}

/// Text that `str::parse::<f64>` accepts, by the grammar of its documentation:
/// an optional sign, then `inf`, `infinity` or `nan` in any case, or a number.
pub open spec fn is_float_literal(s: Seq<char>) -> bool {
    let b = strip_sign(s);
    ||| same_word(b, seq!['i', 'n', 'f'])
    ||| same_word(b, seq!['i', 'n', 'f', 'i', 'n', 'i', 't', 'y'])
    ||| same_word(b, seq!['n', 'a', 'n'])
    ||| is_number(b)
}

/// The value that a parameter whose text is `text` takes: an integer where the
/// text spells one that fits in an `i64`, else a float where it spells one, else the
/// text.
pub open spec fn param_value(text: Seq<char>) -> DataView {
    match decimal_i64(text) {
        Some(v) => DataView::Int(v),
        None => if is_float_literal(text) {
            DataView::Float(text)
        } else {
            DataView::Str(text)
        },
    }
}

fn is_digit_char(c: char) -> (res: bool)
    ensures
        res == is_digit(c),
{
    '0' <= c && c <= '9'
}

fn lower_char(c: char) -> (res: char)
    ensures
        res == ascii_lower(c),
{
    if 'A' <= c && c <= 'Z' {
        assert((c as u32) + 32 < 0xD800);
        ((c as u32 + 32) as u8) as char
    } else {
        c
    }
}

/// Whether `cs[lo..hi]` spells `word` in any ASCII case.
fn same_word_at(cs: &Vec<char>, lo: usize, hi: usize, word: &[char]) -> (res: bool)
    requires
        lo <= hi <= cs@.len(),
    ensures
        res == same_word(cs@.subrange(lo as int, hi as int), word@),
{
    let ghost s = cs@.subrange(lo as int, hi as int);
    if hi - lo != word.len() {
        return false;
    }
    let mut i: usize = 0;
    while i < word.len()
        invariant
            s == cs@.subrange(lo as int, hi as int),
            lo <= hi <= cs@.len(),
            hi - lo == word@.len(),
            i <= word@.len(),
            forall|j: int| 0 <= j < i ==> ascii_lower(#[trigger] s[j]) == word@[j],
        decreases word@.len() - i,
    {
        assert(s[i as int] == cs@[lo + i]);
        if lower_char(cs[lo + i]) != word[i] {
            return false;
        }
        i = i + 1;
    }
    true
}

/// Whether `cs[lo..hi]` is a mantissa.
fn is_mantissa_at(cs: &Vec<char>, lo: usize, hi: usize) -> (res: bool)
    requires
        lo <= hi <= cs@.len(),
    ensures
        res == is_mantissa(cs@.subrange(lo as int, hi as int)),
{
    let ghost m = cs@.subrange(lo as int, hi as int);
    let mut i: usize = lo;
    let mut dot: Option<usize> = None;
    let mut digit = false;
    while i < hi
        invariant
            m == cs@.subrange(lo as int, hi as int),
            lo <= i <= hi <= cs@.len(),
            forall|j: int| 0 <= j < i - lo ==> is_digit(#[trigger] m[j]) || m[j] == '.',
            match dot {
                Some(d) => lo <= d < i && m[d - lo] == '.' && forall|j: int|
                    0 <= j < i - lo && j != d - lo ==> #[trigger] m[j] != '.',
                None => forall|j: int| 0 <= j < i - lo ==> #[trigger] m[j] != '.',
            },
            digit <==> exists|j: int| 0 <= j < i - lo && is_digit(#[trigger] m[j]),
        decreases hi - i,
    {
        let c = cs[i];
        assert(m[i - lo] == c);
        if c == '.' {
            if dot.is_some() {
                assert(m[dot.unwrap() - lo] == '.' && m[i - lo] == '.');
                return false;
            }
            dot = Some(i);
        } else if is_digit_char(c) {
            digit = true;
        } else {
            return false;
        }
        i = i + 1;
    }
    digit
}

/// Whether `cs[lo..hi]` is an exponent.
fn is_exponent_at(cs: &Vec<char>, lo: usize, hi: usize) -> (res: bool)
    requires
        lo <= hi <= cs@.len(),
    ensures
        res == is_exponent(cs@.subrange(lo as int, hi as int)),
{
    let ghost x = cs@.subrange(lo as int, hi as int);
    if lo == hi || !(cs[lo] == 'e' || cs[lo] == 'E') {
        return false;
    }
    let mut i = lo + 1;
    if i < hi && (cs[i] == '+' || cs[i] == '-') {
        i = i + 1;
    }
    assert(strip_sign(x.drop_first()) =~= cs@.subrange(i as int, hi as int));
    if i == hi {
        return false;
    }
    let start = i;
    while i < hi
        invariant
            start <= i <= hi <= cs@.len(),
            x == cs@.subrange(lo as int, hi as int),
            x.len() > 0,
            strip_sign(x.drop_first()) == cs@.subrange(start as int, hi as int),
            forall|j: int| start <= j < i ==> is_digit(#[trigger] cs@[j]),
        decreases hi - i,
    {
        if !is_digit_char(cs[i]) {
            assert(cs@.subrange(start as int, hi as int)[i - start] == cs@[i as int]);
            assert(!all_digits(cs@.subrange(start as int, hi as int)));
            assert(!all_digits(strip_sign(x.drop_first())));
            return false;
        }
        i = i + 1;
    }
    assert(all_digits(cs@.subrange(start as int, hi as int))) by {
        assert forall|j: int| 0 <= j < hi - start implies is_digit(
            #[trigger] cs@.subrange(start as int, hi as int)[j],
        ) by {
            assert(cs@.subrange(start as int, hi as int)[j] == cs@[start + j]);
        }
    }
    true
}

/// Whether `cs[lo..hi]` is a number.
fn is_number_at(cs: &Vec<char>, lo: usize, hi: usize) -> (res: bool)
    requires
        lo <= hi <= cs@.len(),
    ensures
        res == is_number(cs@.subrange(lo as int, hi as int)),
{
    let ghost s = cs@.subrange(lo as int, hi as int);
    let mut k = lo;
    while k < hi && cs[k] != 'e' && cs[k] != 'E'
        invariant
            lo <= k <= hi <= cs@.len(),
            forall|j: int| lo <= j < k ==> #[trigger] cs@[j] != 'e' && cs@[j] != 'E',
        decreases hi - k,
    {
        k = k + 1;
    }
    let m = is_mantissa_at(cs, lo, k);
    let e = k == hi || is_exponent_at(cs, k, hi);
    proof {
        let kk = k - lo;
        assert(s.subrange(0, kk) =~= cs@.subrange(lo as int, k as int));
        assert(s.subrange(kk, s.len() as int) =~= cs@.subrange(k as int, hi as int));
        if is_number(s) {
            let w = choose|w: int|
                0 <= w <= s.len() && is_mantissa(#[trigger] s.subrange(0, w)) && (w == s.len()
                    || is_exponent(s.subrange(w, s.len() as int)));
            if w > kk {
                let t = s.subrange(0, w);
                assert(t[kk] == cs@[k as int]);
                assert(is_digit(t[kk]) || t[kk] == '.');
            } else if w < kk {
                assert(s.subrange(w, s.len() as int)[0] == cs@[lo + w]);
            }
        }
    }
    m && e
}

/// Whether `s` is text that `str::parse::<f64>` accepts.
pub fn is_float_literal_str(s: &str) -> (res: bool)
    ensures
        res == is_float_literal(s@),
{
    let cs = chars_of(s);
    let n = cs.len();
    let lo: usize = if n > 0 && (cs[0] == '+' || cs[0] == '-') {
        1
    } else {
        0
    };
    assert(strip_sign(s@) =~= cs@.subrange(lo as int, n as int));
    let inf = ['i', 'n', 'f'];
    let infinity = ['i', 'n', 'f', 'i', 'n', 'i', 't', 'y'];
    let nan = ['n', 'a', 'n'];
    assert(inf@ =~= seq!['i', 'n', 'f']);
    assert(infinity@ =~= seq!['i', 'n', 'f', 'i', 'n', 'i', 't', 'y']);
    assert(nan@ =~= seq!['n', 'a', 'n']);
    same_word_at(&cs, lo, n, inf.as_slice()) || same_word_at(&cs, lo, n, infinity.as_slice())
        || same_word_at(&cs, lo, n, nan.as_slice()) || is_number_at(&cs, lo, n)
}


/// The value of a parameter whose text is `text`.
pub fn param_data(text: &String) -> (res: Data)
    ensures
        res@ == param_value(text@),
{
    match parse_i64(text.as_str()) {
        Some(v) => Data::INT(v),
        None => if is_float_literal_str(text.as_str()) {
            Data::FLOAT(text.clone())
        } else {
            Data::STRING(text.clone())
        },
    }
}

/// The parameter text `7` is the integer 7, and `-12` is -12.
pub proof fn lemma_integer_examples()
    ensures
        param_value(seq!['7']) == DataView::Int(7),
        param_value(seq!['-', '1', '2']) == DataView::Int(-12i64),
{
    let a = seq!['7'];
    assert(strip_sign(a) == a);
    assert(a.drop_last() =~= Seq::<char>::empty());
    assert(decimal_value(Seq::<char>::empty()) == 0);
    assert(a.last() == '7');
    assert(('7' as int) - ('0' as int) == 7);
    assert(decimal_value(a) == 7);
    let b = seq!['-', '1', '2'];
    let d = seq!['1', '2'];
    assert(strip_sign(b) =~= d);
    assert(d.drop_last() =~= seq!['1']);
    assert(seq!['1'].drop_last() =~= Seq::<char>::empty());
    assert(seq!['1'].last() == '1');
    assert(decimal_value(seq!['1']) == 1);
    assert(d.last() == '2');
    assert(decimal_value(d) == 12);
    assert(all_digits(d)) by {
        assert forall|i: int| 0 <= i < d.len() implies is_digit(#[trigger] d[i]) by {}
    }
}

/// A float may be signed with `+` or `-` alike.
pub proof fn lemma_float_sign_either(t: Seq<char>)
    ensures
        is_float_literal(seq!['-'] + t) == is_float_literal(seq!['+'] + t),
{
    assert((seq!['-'] + t).drop_first() =~= t);
    assert((seq!['+'] + t).drop_first() =~= t);
}

/// Decimal digits around a point, with or without a sign, at least one digit in
/// all, are a float parameter: `2.5`, `-2.5`, `+.5` and `12.` among them.
pub proof fn lemma_decimal_point_is_float(sign: Seq<char>, a: Seq<char>, b: Seq<char>)
    requires
        sign == Seq::<char>::empty() || sign == seq!['+'] || sign == seq!['-'],
        forall|i: int| 0 <= i < a.len() ==> '0' <= #[trigger] a[i] <= '9',
        forall|i: int| 0 <= i < b.len() ==> '0' <= #[trigger] b[i] <= '9',
        a.len() + b.len() > 0,
    ensures
        is_float_literal(sign + a + seq!['.'] + b),
        param_value(sign + a + seq!['.'] + b) == DataView::Float(sign + a + seq!['.'] + b),
{
    let x = a + seq!['.'] + b;
    let s = sign + x;
    assert(s =~= sign + a + seq!['.'] + b);
    assert(x[a.len() as int] == '.');
    if sign.len() == 1 {
        assert(s.drop_first() =~= x);
    } else {
        assert(s =~= x);
    }
    assert(strip_sign(s) =~= x);
    assert forall|i: int| 0 <= i < x.len() implies is_digit(#[trigger] x[i]) || x[i] == '.' by {
        if i < a.len() {
            assert(x[i] == a[i]);
        } else if i > a.len() {
            assert(x[i] == b[i - a.len() - 1]);
        }
    }
    assert forall|i: int, j: int| 0 <= i < j < x.len() implies !(#[trigger] x[i] == '.' && #[trigger] x[j] == '.') by {
        if i < a.len() {
            assert(x[i] == a[i]);
        } else {
            assert(x[j] == b[j - a.len() - 1]);
        }
    }
    if a.len() > 0 {
        assert(x[0] == a[0]);
        assert(is_digit(x[0]));
    } else {
        assert(x[1] == b[0]);
        assert(is_digit(x[1]));
    }
    assert(x.subrange(0, x.len() as int) =~= x);
    assert(is_mantissa(x.subrange(0, x.len() as int)));
    assert(is_number(x));
    assert(!all_digits(x));
}

} // verus!
