//! Text primitives shared by the parsers of this crate.
//!
//! Strings are handled as sequences of characters. The executable functions
//! work on character slices; [`chars_of`] and [`string_of`] convert at the edge.

use vstd::prelude::*;
use vstd::utf8::*;

verus! {

/// `String::push` appends one character.
pub assume_specification[ String::push ](s: &mut String, c: char)
    ensures
        final(s)@ == old(s)@.push(c),
;

/// `String::from_utf8` gives the text that the bytes encode, and fails exactly on
/// bytes that are not valid UTF-8.
#[verifier::external_body]
pub(crate) fn text_of_utf8(bytes: Vec<u8>) -> (r: Option<String>)
    ensures
        match r {
            Some(s) => valid_utf8(bytes@) && s@ == decode_utf8(bytes@),
            None => !valid_utf8(bytes@),
        },
{
    String::from_utf8(bytes).ok()
}

/// The characters of each of some strings.
pub open spec fn texts(s: Seq<String>) -> Seq<Seq<char>> {
    s.map_values(|t: String| t@)
}

/// The characters of `s`, in order.
pub fn chars_of(s: &str) -> (v: Vec<char>)
    ensures
        v@ == s@,
{
    let mut v: Vec<char> = Vec::new();
    for c in it: s.chars()
        invariant
            it.seq() == s@,
            v@ == s@.take(it.index()),
    {
        v.push(c);
        assert(s@.take(it.index() + 1) =~= s@.take(it.index()).push(s@[it.index()]));
    }
    assert(s@.take(s@.len() as int) =~= s@);
    v
}

/// The string made of `chars[from..to]`.
pub fn string_of(chars: &[char], from: usize, to: usize) -> (s: String)
    requires
        from <= to <= chars@.len(),
    ensures
        s@ == chars@.subrange(from as int, to as int),
{
    let mut s = String::new();
    let mut i: usize = from;
    while i < to
        invariant
            from <= i <= to <= chars@.len(),
            s@ == chars@.subrange(from as int, i as int),
        decreases to - i,
    {
        s.push(chars[i]);
        assert(chars@.subrange(from as int, i + 1) =~= chars@.subrange(from as int, i as int).push(
            chars@[i as int],
        ));
        i = i + 1;
    }
    s
}

/// A copy of `s[from..to]`.
pub fn char_vec(s: &[char], from: usize, to: usize) -> (r: Vec<char>)
    requires
        from <= to <= s@.len(),
    ensures
        r@ == s@.subrange(from as int, to as int),
{
    let mut r: Vec<char> = Vec::new();
    let mut i: usize = from;
    while i < to
        invariant
            from <= i <= to <= s@.len(),
            r@ == s@.subrange(from as int, i as int),
        decreases to - i,
    {
        r.push(s[i]);
        assert(s@.subrange(from as int, i + 1) =~= s@.subrange(from as int, i as int).push(
            s@[i as int],
        ));
        i = i + 1;
    }
    r
}

/// Whether `pat` stands in `s` at position `i`.
pub open spec fn occurs_at(s: Seq<char>, pat: Seq<char>, i: int) -> bool {
    0 <= i && i + pat.len() <= s.len() && s.subrange(i, i + pat.len()) == pat
}

/// Whether `i` is the first position at which `pat` stands in `s`.
pub open spec fn is_first_at(s: Seq<char>, pat: Seq<char>, i: int) -> bool {
    occurs_at(s, pat, i) && forall|j: int| 0 <= j < i ==> !#[trigger] occurs_at(s, pat, j)
}

/// Whether `i` is the last position at which `pat` stands in `s`.
pub open spec fn is_last_at(s: Seq<char>, pat: Seq<char>, i: int) -> bool {
    occurs_at(s, pat, i) && forall|j: int| i < j ==> !#[trigger] occurs_at(s, pat, j)
}

/// The first position of `pat` in `s`.
pub open spec fn find(s: Seq<char>, pat: Seq<char>) -> Option<int> {
    if exists|i: int| is_first_at(s, pat, i) {
        Some(choose|i: int| is_first_at(s, pat, i))
    } else {
        None
    }
}

/// The last position of `pat` in `s`.
pub open spec fn rfind(s: Seq<char>, pat: Seq<char>) -> Option<int> {
    if exists|i: int| is_last_at(s, pat, i) {
        Some(choose|i: int| is_last_at(s, pat, i))
    } else {
        None
    }
}

/// A first position is the one that `find` gives.
pub proof fn lemma_find_is(s: Seq<char>, pat: Seq<char>, i: int)
    requires
        is_first_at(s, pat, i),
    ensures
        find(s, pat) == Some(i),
{
    let k = choose|k: int| is_first_at(s, pat, k);
    assert(is_first_at(s, pat, k));
    if k < i {
        assert(!occurs_at(s, pat, k));
    }
    if i < k {
        assert(!occurs_at(s, pat, i));
    }
}

/// A last position is the one that `rfind` gives.
pub proof fn lemma_rfind_is(s: Seq<char>, pat: Seq<char>, i: int)
    requires
        is_last_at(s, pat, i),
    ensures
        rfind(s, pat) == Some(i),
{
    let k = choose|k: int| is_last_at(s, pat, k);
    assert(is_last_at(s, pat, k));
    if k < i {
        assert(!occurs_at(s, pat, i));
    }
    if i < k {
        assert(!occurs_at(s, pat, k));
    }
}

/// `find` gives a position exactly when the pattern occurs.
pub proof fn lemma_find_none(s: Seq<char>, pat: Seq<char>)
    ensures
        find(s, pat) is None <==> forall|j: int| !#[trigger] occurs_at(s, pat, j),
        find(s, pat) matches Some(i) ==> is_first_at(s, pat, i),
{
    if exists|j: int| #[trigger] occurs_at(s, pat, j) {
        let j = choose|j: int| #[trigger] occurs_at(s, pat, j);
        lemma_first_exists(s, pat, j);
    }
}

proof fn lemma_first_exists(s: Seq<char>, pat: Seq<char>, j: int)
    requires
        occurs_at(s, pat, j),
    ensures
        exists|i: int| is_first_at(s, pat, i),
    decreases j,
{
    if is_first_at(s, pat, j) {
    } else {
        let k = choose|k: int| 0 <= k < j && #[trigger] occurs_at(s, pat, k);
        lemma_first_exists(s, pat, k);
    }
}

/// Whether the two character slices are equal.
pub fn same_chars(a: &[char], b: &[char]) -> (r: bool)
    ensures
        r == (a@ == b@),
{
    if a.len() != b.len() {
        return false;
    }
    let mut i: usize = 0;
    while i < a.len()
        invariant
            a@.len() == b@.len(),
            i <= a@.len(),
            forall|k: int| 0 <= k < i ==> a@[k] == b@[k],
        decreases a@.len() - i,
    {
        if a[i] != b[i] {
            return false;
        }
        i = i + 1;
    }
    assert(a@ =~= b@);
    true
}

/// Whether `pat` stands in `s` at position `i`.
pub fn stands_at(s: &[char], pat: &[char], i: usize) -> (r: bool)
    ensures
        r == occurs_at(s@, pat@, i as int),
{
    let n: usize = s.len();
    if i > n || pat.len() > n - i {
        return false;
    }
    let mut k: usize = 0;
    while k < pat.len()
        invariant
            n == s@.len(),
            i + pat@.len() <= n,
            k <= pat@.len(),
            forall|m: int| 0 <= m < k ==> s@[i + m] == pat@[m],
        decreases pat@.len() - k,
    {
        if s[i + k] != pat[k] {
            assert(s@.subrange(i as int, i + pat@.len())[k as int] != pat@[k as int]);
            return false;
        }
        k = k + 1;
    }
    assert(s@.subrange(i as int, i + pat@.len()) =~= pat@);
    true
}

/// The first position of `pat` in `s`.
pub fn find_in(s: &[char], pat: &[char]) -> (r: Option<usize>)
    ensures
        match r {
            Some(i) => find(s@, pat@) == Some(i as int),
            None => find(s@, pat@) is None,
        },
{
    let mut i: usize = 0;
    while i < s.len()
        invariant
            i <= s@.len(),
            forall|j: int| 0 <= j < i ==> !#[trigger] occurs_at(s@, pat@, j),
        decreases s@.len() - i,
    {
        if stands_at(s, pat, i) {
            proof {
                lemma_find_is(s@, pat@, i as int);
            }
            return Some(i);
        }
        i = i + 1;
    }
    if stands_at(s, pat, i) {
        proof {
            lemma_find_is(s@, pat@, i as int);
        }
        return Some(i);
    }
    None
}

/// The last position of `pat` in `s`.
pub fn rfind_in(s: &[char], pat: &[char]) -> (r: Option<usize>)
    ensures
        match r {
            Some(i) => rfind(s@, pat@) == Some(i as int),
            None => rfind(s@, pat@) is None,
        },
{
    let mut i: usize = s.len();
    loop
        invariant
            i <= s@.len(),
            forall|j: int| i < j ==> !#[trigger] occurs_at(s@, pat@, j),
        decreases i,
    {
        if stands_at(s, pat, i) {
            proof {
                lemma_rfind_is(s@, pat@, i as int);
            }
            return Some(i);
        }
        if i == 0 {
            return None;
        }
        i = i - 1;
    }
}

/// `s` with every occurrence of `pat`, taken from the left and without overlap,
/// replaced by `with`.
pub open spec fn replace(s: Seq<char>, pat: Seq<char>, with: Seq<char>) -> Seq<char>
    decreases s.len(),
{
    if pat.len() == 0 || s.len() < pat.len() {
        s
    } else if occurs_at(s, pat, 0) {
        with + replace(s.skip(pat.len() as int), pat, with)
    } else {
        seq![s[0]] + replace(s.skip(1), pat, with)
    }
}

/// `s` with every occurrence of `pat` replaced by `with`.
pub fn replace_in(s: &[char], pat: &[char], with: &[char]) -> (r: Vec<char>)
    requires
        pat@.len() > 0,
    ensures
        r@ == replace(s@, pat@, with@),
{
    let mut r: Vec<char> = Vec::new();
    let mut i: usize = 0;
    assert(s@.skip(0) =~= s@);
    assert(r@ + replace(s@, pat@, with@) =~= replace(s@, pat@, with@));
    while i < s.len()
        invariant
            i <= s@.len(),
            pat@.len() > 0,
            r@ + replace(s@.skip(i as int), pat@, with@) == replace(s@, pat@, with@),
        decreases s@.len() - i,
    {
        let ghost rest = s@.skip(i as int);
        let ghost before = r@;
        if stands_at(s, pat, i) {
            proof {
                assert(rest.subrange(0, pat@.len() as int) =~= s@.subrange(
                    i as int,
                    i + pat@.len(),
                ));
                assert(rest.skip(pat@.len() as int) =~= s@.skip(i + pat@.len()));
            }
            let mut k: usize = 0;
            while k < with.len()
                invariant
                    k <= with@.len(),
                    r@ == before + with@.take(k as int),
                decreases with@.len() - k,
            {
                r.push(with[k]);
                assert(with@.take(k + 1) =~= with@.take(k as int).push(with@[k as int]));
                k = k + 1;
            }
            assert(with@.take(k as int) =~= with@);
            assert(r@ + replace(s@.skip(i + pat@.len()), pat@, with@) =~= before + (with@
                + replace(s@.skip(i + pat@.len()), pat@, with@)));
            i = i + pat.len();
        } else {
            proof {
                assert(!occurs_at(rest, pat@, 0)) by {
                    if occurs_at(rest, pat@, 0) {
                        assert(rest.subrange(0, pat@.len() as int) =~= s@.subrange(
                            i as int,
                            i + pat@.len(),
                        ));
                    }
                }
                assert(rest.skip(1) =~= s@.skip(i + 1));
                let tail = replace(s@.skip(i + 1), pat@, with@);
                if rest.len() < pat@.len() {
                    assert(tail == s@.skip(i + 1));
                    assert(rest =~= seq![rest[0]] + tail);
                }
                assert(replace(rest, pat@, with@) == seq![rest[0]] + tail);
                assert(before + (seq![rest[0]] + tail) =~= before.push(rest[0]) + tail);
            }
            r.push(s[i]);
            i = i + 1;
        }
    }
    proof {
        assert(s@.skip(i as int) =~= Seq::<char>::empty());
        assert(r@ + Seq::<char>::empty() =~= r@);
    }
    r
}

/// The characters with the Unicode property `White_Space`.
pub open spec fn is_white_space(c: char) -> bool {
    ||| '\u{9}' <= c <= '\u{d}'
    ||| c == ' '
    ||| c == '\u{85}'
    ||| c == '\u{a0}'
    ||| c == '\u{1680}'
    ||| '\u{2000}' <= c <= '\u{200a}'
    ||| c == '\u{2028}'
    ||| c == '\u{2029}'
    ||| c == '\u{202f}'
    ||| c == '\u{205f}'
    ||| c == '\u{3000}'
}

/// Whether `c` has the Unicode property `White_Space`.
pub fn white_space(c: char) -> (r: bool)
    ensures
        r == is_white_space(c),
{
    ('\u{9}' <= c && c <= '\u{d}') || c == ' ' || c == '\u{85}' || c == '\u{a0}' || c == '\u{1680}'
        || ('\u{2000}' <= c && c <= '\u{200a}') || c == '\u{2028}' || c == '\u{2029}' || c
        == '\u{202f}' || c == '\u{205f}' || c == '\u{3000}'
}

/// `s` without its leading white space.
pub open spec fn trim_start(s: Seq<char>) -> Seq<char>
    decreases s.len(),
{
    if s.len() > 0 && is_white_space(s[0]) {
        trim_start(s.skip(1))
    } else {
        s
    }
}

/// `s` without its trailing white space.
pub open spec fn trim_end(s: Seq<char>) -> Seq<char>
    decreases s.len(),
{
    if s.len() > 0 && is_white_space(s.last()) {
        trim_end(s.drop_last())
    } else {
        s
    }
}

/// `s` without its leading and trailing white space.
pub open spec fn trim(s: Seq<char>) -> Seq<char> {
    trim_end(trim_start(s))
}

/// The bounds of `s[from..to]` without its leading and trailing white space.
pub fn trim_bounds(s: &[char], from: usize, to: usize) -> (r: (usize, usize))
    requires
        from <= to <= s@.len(),
    ensures
        from <= r.0 <= r.1 <= to,
        s@.subrange(r.0 as int, r.1 as int) == trim(s@.subrange(from as int, to as int)),
{
    let ghost whole = s@.subrange(from as int, to as int);
    let mut a: usize = from;
    while a < to && white_space(s[a])
        invariant
            from <= a <= to <= s@.len(),
            trim_start(s@.subrange(a as int, to as int)) == trim_start(whole),
        decreases to - a,
    {
        proof {
            let cur = s@.subrange(a as int, to as int);
            assert(cur[0] == s@[a as int]);
            assert(cur.skip(1) =~= s@.subrange(a + 1, to as int));
        }
        a = a + 1;
    }
    let ghost left = s@.subrange(a as int, to as int);
    assert(left == trim_start(whole)) by {
        if a < to {
            assert(left[0] == s@[a as int]);
        }
    }
    let mut b: usize = to;
    while b > a && white_space(s[b - 1])
        invariant
            from <= a <= b <= to <= s@.len(),
            trim_end(s@.subrange(a as int, b as int)) == trim_end(left),
        decreases b - a,
    {
        proof {
            let cur = s@.subrange(a as int, b as int);
            assert(cur.last() == s@[b - 1]);
            assert(cur.drop_last() =~= s@.subrange(a as int, b - 1));
        }
        b = b - 1;
    }
    assert(s@.subrange(a as int, b as int) == trim_end(left)) by {
        if a < b {
            assert(s@.subrange(a as int, b as int).last() == s@[b - 1]);
        }
    }
    (a, b)
}

/// Text that neither starts nor ends with white space is its own trim.
pub proof fn lemma_trim_same(s: Seq<char>)
    requires
        s.len() > 0 ==> !is_white_space(s[0]) && !is_white_space(s.last()),
    ensures
        trim(s) == s,
{
}

/// The decimal digit of `d`.
pub open spec fn digit(d: nat) -> char {
    ('0' as int + d) as char
}

/// The decimal notation of `n`, without leading zeros.
pub open spec fn decimal(n: nat) -> Seq<char>
    decreases n,
{
    if n < 10 {
        seq![digit(n)]
    } else {
        decimal(n / 10).push(digit(n % 10))
    }
}

/// The number that a sequence of decimal digits stands for.
pub open spec fn digits_value(s: Seq<char>) -> int
    decreases s.len(),
{
    if s.len() == 0 {
        0
    } else {
        digits_value(s.drop_last()) * 10 + (s.last() as int - '0' as int)
    }
}

/// Whether `s` holds decimal digits only.
pub open spec fn all_digits(s: Seq<char>) -> bool {
    forall|i: int| 0 <= i < s.len() ==> '0' <= #[trigger] s[i] <= '9'
}

/// `s` without one leading plus sign.
pub open spec fn without_plus(s: Seq<char>) -> Seq<char> {
    if s.len() > 0 && s[0] == '+' {
        s.skip(1)
    } else {
        s
    }
}

/// The number that `s` writes: an optional plus sign and at least one digit, with
/// a value that fits in 16 bits.
pub open spec fn parse_u16(s: Seq<char>) -> Option<u16> {
    let d = without_plus(s);
    if d.len() > 0 && all_digits(d) && digits_value(d) <= u16::MAX {
        Some(digits_value(d) as u16)
    } else {
        None
    }
}

/// The decimal digits of `n`.
pub fn decimal_u64(n: u64) -> (r: Vec<char>)
    ensures
        r@ == decimal(n as nat),
    decreases n,
{
    if n < 10 {
        let c: char = (48u8 + n as u8) as char;
        let mut r: Vec<char> = Vec::new();
        r.push(c);
        assert(r@ =~= seq![digit(n as nat)]);
        r
    } else {
        let mut r: Vec<char> = decimal_u64(n / 10);
        r.push((48u8 + (n % 10) as u8) as char);
        r
    }
}

/// The decimal digits of `n`.
pub fn decimal_u16(n: u16) -> (r: Vec<char>)
    ensures
        r@ == decimal(n as nat),
{
    decimal_u64(n as u64)
}

/// The number that `s` writes, if it is a 16-bit decimal number.
pub fn u16_of(s: &[char]) -> (r: Option<u16>)
    ensures
        r == parse_u16(s@),
{
    let n: usize = s.len();
    let start: usize = if n > 0 && s[0] == '+' {
        1
    } else {
        0
    };
    let ghost d = without_plus(s@);
    assert(d =~= s@.skip(start as int));
    if start == n {
        return None;
    }
    let mut i: usize = start;
    let mut value: u32 = 0;
    assert(d.take(0) =~= Seq::<char>::empty());
    while i < n
        invariant
            n == s@.len(),
            start <= i <= n,
            start < n,
            d == s@.skip(start as int),
            d == without_plus(s@),
            all_digits(d.take(i - start)),
            value == digits_value(d.take(i - start)),
            value <= u16::MAX,
        decreases n - i,
    {
        let c: char = s[i];
        assert(c == d[i - start]);
        if c < '0' || c > '9' {
            return None;
        }
        let next: u32 = value * 10 + (c as u32 - 48);
        proof {
            assert(d.take(i + 1 - start).drop_last() =~= d.take(i - start));
            assert forall|k: int| 0 <= k < i + 1 - start implies '0' <= #[trigger] d.take(
                i + 1 - start,
            )[k] <= '9' by {
                if k < i - start {
                    assert(d.take(i + 1 - start)[k] == d.take(i - start)[k]);
                }
            }
        }
        if next > 65535 {
            proof {
                if all_digits(d) {
                    lemma_digits_value_grows(d, i + 1 - start);
                }
            }
            return None;
        }
        value = next;
        i = i + 1;
    }
    assert(d.take(i - start) =~= d);
    Some(value as u16)
}

/// A prefix of a digit sequence stands for no more than the whole.
proof fn lemma_digits_value_grows(d: Seq<char>, k: int)
    requires
        all_digits(d),
        0 <= k <= d.len(),
    ensures
        0 <= digits_value(d.take(k)) <= digits_value(d),
    decreases d.len(),
{
    if k == d.len() {
        assert(d.take(k) =~= d);
        if d.len() > 0 {
            lemma_digits_value_grows(d.drop_last(), d.len() - 1);
        }
    } else {
        lemma_digits_value_grows(d.drop_last(), k);
        assert(d.drop_last().take(k) =~= d.take(k));
    }
}

/// Reading the decimal notation of a 16-bit number gives the number back.
pub proof fn lemma_decimal_roundtrip(n: u16)
    ensures
        parse_u16(decimal(n as nat)) == Some(n),
{
    lemma_decimal_digits(n as nat);
}

/// The decimal notation of a number holds digits only, and these stand for it.
pub proof fn lemma_decimal_digits(n: nat)
    ensures
        decimal(n).len() > 0,
        all_digits(decimal(n)),
        digits_value(decimal(n)) == n,
    decreases n,
{
    if n < 10 {
        let s = decimal(n);
        assert(s.drop_last() =~= Seq::<char>::empty());
        assert(digits_value(s.drop_last()) == 0);
    } else {
        lemma_decimal_digits(n / 10);
        let s = decimal(n);
        assert(s.drop_last() =~= decimal(n / 10));
        assert forall|i: int| 0 <= i < s.len() implies '0' <= #[trigger] s[i] <= '9' by {
            if i < s.len() - 1 {
                assert(s[i] == decimal(n / 10)[i]);
            }
        }
    }
}

/// The lower-case form of an ASCII letter; any other character as it is.
pub open spec fn ascii_lower(c: char) -> char {
    if 'A' <= c <= 'Z' {
        (c as int + 32) as char
    } else {
        c
    }
}

/// Equality of two texts up to the case of ASCII letters.
pub open spec fn equal_ignoring_ascii_case(a: Seq<char>, b: Seq<char>) -> bool {
    a.map_values(|c: char| ascii_lower(c)) == b.map_values(|c: char| ascii_lower(c))
}

/// The lower-case form of an ASCII letter; any other character as it is.
pub fn lower(c: char) -> (r: char)
    ensures
        r == ascii_lower(c),
{
    if 'A' <= c && c <= 'Z' {
        (c as u8 + 32) as char
    } else {
        c
    }
}

/// Whether the two texts are equal up to the case of ASCII letters.
pub fn same_ignoring_ascii_case(a: &[char], b: &[char]) -> (r: bool)
    ensures
        r == equal_ignoring_ascii_case(a@, b@),
{
    let ghost la = a@.map_values(|c: char| ascii_lower(c));
    let ghost lb = b@.map_values(|c: char| ascii_lower(c));
    if a.len() != b.len() {
        assert(la.len() != lb.len());
        return false;
    }
    let mut i: usize = 0;
    while i < a.len()
        invariant
            a@.len() == b@.len(),
            i <= a@.len(),
            la == a@.map_values(|c: char| ascii_lower(c)),
            lb == b@.map_values(|c: char| ascii_lower(c)),
            forall|k: int| 0 <= k < i ==> la[k] == lb[k],
        decreases a@.len() - i,
    {
        if lower(a[i]) != lower(b[i]) {
            assert(la[i as int] != lb[i as int]);
            return false;
        }
        i = i + 1;
    }
    assert(la =~= lb);
    true
}

/// A pattern stands at a place exactly if all its characters do.
pub proof fn lemma_occurs(s: Seq<char>, pat: Seq<char>, i: int)
    requires
        0 <= i,
        i + pat.len() <= s.len(),
    ensures
        occurs_at(s, pat, i) <==> forall|k: int|
            0 <= k < pat.len() ==> s[i + k] == #[trigger] pat[k],
{
    let t = s.subrange(i, i + pat.len());
    if occurs_at(s, pat, i) {
        assert forall|k: int| 0 <= k < pat.len() implies s[i + k] == #[trigger] pat[k] by {
            assert(t[k] == s[i + k]);
        }
    }
    if forall|k: int| 0 <= k < pat.len() ==> s[i + k] == #[trigger] pat[k] {
        assert(t =~= pat);
    }
}

/// A single character is found where it stands first, and from the right where it stands
/// last; it is not found exactly in a text without it.
pub proof fn lemma_char_found(s: Seq<char>, c: char)
    ensures
        match find(s, seq![c]) {
            Some(i) => 0 <= i < s.len() && s[i] == c && forall|j: int| 0 <= j < i ==> s[j] != c,
            None => !s.contains(c),
        },
        match rfind(s, seq![c]) {
            Some(i) => 0 <= i < s.len() && s[i] == c && forall|j: int|
                i < j < s.len() ==> s[j] != c,
            None => !s.contains(c),
        },
{
    let pat = seq![c];
    assert forall|j: int| 0 <= j < s.len() implies #[trigger] occurs_at(s, pat, j) == (s[j]
        == c) by {
        let t = s.subrange(j, j + 1);
        if s[j] == c {
            assert(t =~= pat);
        }
        if occurs_at(s, pat, j) {
            assert(t[0] == pat[0]);
        }
    }
    lemma_find_none(s, pat);
    match find(s, pat) {
        Some(i) => {
            assert forall|j: int| 0 <= j < i implies s[j] != c by {
                assert(!occurs_at(s, pat, j));
            }
        },
        None => {
            assert forall|j: int| 0 <= j < s.len() implies s[j] != c by {
                assert(!occurs_at(s, pat, j));
            }
        },
    }
    if s.contains(c) {
        lemma_last_char(s, c);
    }
    match rfind(s, pat) {
        Some(i) => {
            assert(is_last_at(s, pat, i));
            assert forall|j: int| i < j < s.len() implies s[j] != c by {
                assert(!occurs_at(s, pat, j));
            }
        },
        None => {},
    }
}

proof fn lemma_last_char(s: Seq<char>, c: char)
    requires
        s.contains(c),
    ensures
        exists|i: int| is_last_at(s, seq![c], i),
    decreases s.len(),
{
    let pat = seq![c];
    let n = s.len() - 1;
    if s[n] == c {
        lemma_occurs(s, pat, n);
        assert(is_last_at(s, pat, n));
    } else {
        let t = s.drop_last();
        let k = choose|k: int| 0 <= k < s.len() && s[k] == c;
        assert(t[k] == c);
        lemma_last_char(t, c);
        let i = choose|i: int| is_last_at(t, pat, i);
        lemma_occurs(t, pat, i);
        lemma_occurs(s, pat, i);
        assert(t[i] == pat[0]);
        assert forall|j: int| i < j implies !#[trigger] occurs_at(s, pat, j) by {
            if occurs_at(s, pat, j) {
                lemma_occurs(s, pat, j);
                assert(s[j + 0] == pat[0]);
                if j < n {
                    lemma_occurs(t, pat, j);
                    assert(occurs_at(t, pat, j));
                }
            }
        }
        assert(is_last_at(s, pat, i));
    }
}

/// Blanks, tabs and line breaks are white space; the other characters of ASCII that can be
/// seen are not.
pub proof fn lemma_white_space(c: char)
    ensures
        c == ' ' || c == '\t' || c == '\n' || c == '\r' ==> is_white_space(c),
        '!' <= c <= '~' ==> !is_white_space(c),
        is_white_space(c) ==> c <= ' ' || c >= '\u{85}',
{
}

/// Trimming takes away what stands around a text, if that is white space, and nothing of
/// a text that neither starts nor ends with white space.
pub proof fn lemma_trim_around(a: Seq<char>, s: Seq<char>, b: Seq<char>)
    requires
        forall|i: int| 0 <= i < a.len() ==> is_white_space(#[trigger] a[i]),
        forall|i: int| 0 <= i < b.len() ==> is_white_space(#[trigger] b[i]),
        s.len() > 0,
        !is_white_space(s[0]),
        !is_white_space(s.last()),
    ensures
        trim(a + s + b) == s,
    decreases a.len() + b.len(),
{
    let t = a + s + b;
    if a.len() > 0 {
        let u = a.skip(1);
        assert forall|i: int| 0 <= i < u.len() implies is_white_space(#[trigger] u[i]) by {
            assert(u[i] == a[i + 1]);
        }
        lemma_trim_around(u, s, b);
        assert(is_white_space(a[0]));
        assert(t.skip(1) =~= u + s + b);
    } else {
        assert(t =~= s + b);
        assert(t[0] == s[0]);
        assert(trim_start(t) == t);
        lemma_trim_behind(s, b);
    }
}

proof fn lemma_trim_behind(s: Seq<char>, b: Seq<char>)
    requires
        forall|i: int| 0 <= i < b.len() ==> is_white_space(#[trigger] b[i]),
        s.len() > 0,
        !is_white_space(s.last()),
    ensures
        trim_end(s + b) == s,
    decreases b.len(),
{
    if b.len() > 0 {
        let u = b.drop_last();
        assert forall|i: int| 0 <= i < u.len() implies is_white_space(#[trigger] u[i]) by {
            assert(u[i] == b[i]);
        }
        lemma_trim_behind(s, u);
        assert(is_white_space(b[b.len() - 1]));
        assert((s + b).drop_last() =~= s + u);
        assert((s + b).last() == b.last());
    } else {
        assert(s + b =~= s);
    }
}

/// The decimal notation of a number of three digits.
pub proof fn lemma_three_digits(n: nat)
    requires
        100 <= n <= 999,
    ensures
        decimal(n) == seq![
            ('0' as int + n / 100) as char,
            ('0' as int + n / 10 % 10) as char,
            ('0' as int + n % 10) as char,
        ],
{
    reveal_with_fuel(decimal, 4);
    assert(decimal(n / 10 / 10) =~= seq![digit(n / 100)]);
    assert(decimal(n) =~= seq![digit(n / 100), digit(n / 10 % 10), digit(n % 10)]);
}

/// The decimal notation of a number has no leading zero, and one more digit multiplies by
/// ten.
pub proof fn lemma_decimal_shape(n: nat, d: nat)
    requires
        d < 10,
    ensures
        n < 10 ==> decimal(n) == seq![('0' as int + n) as char],
        n > 0 ==> decimal(n)[0] != '0' && decimal(10 * n + d) == decimal(n).push(
            ('0' as int + d) as char,
        ),
    decreases n,
{
    if n > 0 {
        lemma_decimal_digits(n);
        assert((10 * n + d) / 10 == n);
        assert((10 * n + d) % 10 == d);
        if n >= 10 {
            lemma_decimal_digits(n / 10);
            lemma_decimal_shape(n / 10, d);
            assert(decimal(n)[0] == decimal(n / 10)[0]);
        }
    }
}

/// Three digits are read as the number that they write.
pub proof fn lemma_three_digits_read(s: Seq<char>)
    requires
        s.len() == 3,
        forall|i: int| 0 <= i < 3 ==> '0' <= #[trigger] s[i] <= '9',
    ensures
        parse_u16(s) == Some(
            (100 * (s[0] as int - '0' as int) + 10 * (s[1] as int - '0' as int) + (s[2] as int
                - '0' as int)) as u16,
        ),
{
    assert('0' <= s[0] <= '9');
    assert('0' <= s[1] <= '9');
    assert('0' <= s[2] <= '9');
    reveal_with_fuel(digits_value, 4);
    assert(s.drop_last().drop_last().drop_last() =~= Seq::empty());
    assert(s.drop_last().drop_last().last() == s[0]);
    assert(s.drop_last().last() == s[1]);
}

/// What is no number: a text without digits, one with a character that is no digit other
/// than a plus sign in front, and one whose number is above 65535. Leading zeros and a plus
/// sign in front change nothing.
pub proof fn lemma_not_a_number(s: Seq<char>, i: int)
    ensures
        s.len() == 0 ==> parse_u16(s) is None,
        s == seq!['+'] ==> parse_u16(s) is None,
        0 <= i < s.len() && !('0' <= s[i] <= '9') && !(i == 0 && s[0] == '+') ==> parse_u16(
            s,
        ) is None,
        (forall|n: nat| n > 65535 ==> parse_u16(#[trigger] decimal(n)) is None),
        s.len() > 0 && '0' <= s[0] <= '9' ==> parse_u16(seq!['+'] + s) == parse_u16(s) && parse_u16(
            seq!['0'] + s,
        ) == parse_u16(s),
{
    if 0 <= i < s.len() && !('0' <= s[i] <= '9') && !(i == 0 && s[0] == '+') {
        let d = without_plus(s);
        let k = if s[0] == '+' {
            i - 1
        } else {
            i
        };
        assert(d[k] == s[i]);
    }
    assert forall|n: nat| n > 65535 implies parse_u16(#[trigger] decimal(n)) is None by {
        lemma_decimal_digits(n);
        assert('0' <= decimal(n)[0] <= '9');
    }
    if s.len() > 0 && '0' <= s[0] <= '9' {
        let p = seq!['+'] + s;
        let z = seq!['0'] + s;
        assert(p.skip(1) =~= s);
        lemma_leading_zero(s);
        assert(all_digits(z) <==> all_digits(s)) by {
            if all_digits(z) {
                assert forall|k: int| 0 <= k < s.len() implies '0' <= #[trigger] s[k] <= '9' by {
                    assert(z[k + 1] == s[k]);
                }
            }
        }
    }
}

proof fn lemma_leading_zero(s: Seq<char>)
    ensures
        digits_value(seq!['0'] + s) == digits_value(s),
    decreases s.len(),
{
    let z = seq!['0'] + s;
    if s.len() == 0 {
        assert(z.drop_last() =~= Seq::<char>::empty());
        assert(digits_value(z.drop_last()) == 0);
        assert(z.last() == '0');
    } else {
        lemma_leading_zero(s.drop_last());
        assert(z.drop_last() =~= seq!['0'] + s.drop_last());
        assert(z.last() == s.last());
    }
}

/// Two texts are equal up to the case of ASCII letters exactly if they are of one length
/// and have at each place the same character, or one letter as `A` to `Z` and as `a` to
/// `z`.
pub proof fn lemma_equal_up_to_case(a: Seq<char>, b: Seq<char>)
    ensures
        equal_ignoring_ascii_case(a, b) <==> a.len() == b.len() && forall|i: int|
            0 <= i < a.len() ==> {
                ||| #[trigger] a[i] == b[i]
                ||| 'A' <= a[i] <= 'Z' && b[i] as int == a[i] as int + 32
                ||| 'A' <= b[i] <= 'Z' && a[i] as int == b[i] as int + 32
            },
{
    let la = a.map_values(|c: char| ascii_lower(c));
    let lb = b.map_values(|c: char| ascii_lower(c));
    if equal_ignoring_ascii_case(a, b) {
        assert(la.len() == a.len() && lb.len() == b.len());
        assert forall|i: int| 0 <= i < a.len() implies {
            ||| #[trigger] a[i] == b[i]
            ||| 'A' <= a[i] <= 'Z' && b[i] as int == a[i] as int + 32
            ||| 'A' <= b[i] <= 'Z' && a[i] as int == b[i] as int + 32
        } by {
            assert(la[i] == lb[i]);
        }
    }
    if a.len() == b.len() && forall|i: int|
        0 <= i < a.len() ==> {
            ||| #[trigger] a[i] == b[i]
            ||| 'A' <= a[i] <= 'Z' && b[i] as int == a[i] as int + 32
            ||| 'A' <= b[i] <= 'Z' && a[i] as int == b[i] as int + 32
        } {
        assert forall|i: int| 0 <= i < a.len() implies la[i] == lb[i] by {
            assert(a[i] == a[i]);
        }
        assert(la =~= lb);
    }
}

/// Replacing a single character goes through a text character by character.
pub proof fn lemma_replace_char(a: Seq<char>, b: Seq<char>, c: char, with: Seq<char>)
    ensures
        replace(a + b, seq![c], with) == replace(a, seq![c], with) + replace(b, seq![c], with),
        replace(seq![c], seq![c], with) == with,
        !a.contains(c) ==> replace(a, seq![c], with) == a,
    decreases a.len(),
{
    let pat = seq![c];
    let one = seq![c];
    assert(one.subrange(0, 1) =~= pat);
    assert(one.skip(1) =~= Seq::empty());
    assert(replace(one.skip(1), pat, with) =~= Seq::empty());
    assert(with + Seq::<char>::empty() =~= with);
    if a.len() == 0 {
        assert(a + b =~= b);
        assert(replace(a, pat, with) + replace(b, pat, with) =~= replace(b, pat, with));
    } else {
        let t = a.skip(1);
        let s = a + b;
        assert(s.skip(1) =~= t + b);
        lemma_replace_char(t, b, c, with);
        lemma_occurs(a, pat, 0);
        lemma_occurs(s, pat, 0);
        assert(s[0] == a[0]);
        let rt = replace(t, pat, with);
        let rb = replace(b, pat, with);
        if a[0] == c {
            assert(occurs_at(a, pat, 0) && occurs_at(s, pat, 0));
            assert(with + (rt + rb) =~= (with + rt) + rb);
        } else {
            assert(pat[0] == c);
            assert(!occurs_at(a, pat, 0) && !occurs_at(s, pat, 0));
            assert(seq![a[0]] + (rt + rb) =~= (seq![a[0]] + rt) + rb);
        }
        if !a.contains(c) {
            assert(a.contains(a[0]));
            assert(!t.contains(c)) by {
                if t.contains(c) {
                    let k = choose|k: int| 0 <= k < t.len() && t[k] == c;
                    assert(a[k + 1] == c);
                }
            }
            assert(seq![a[0]] + t =~= a);
        }
    }
}

/// The white space characters, by their code points.
pub proof fn lemma_white_space_written_out(c: char)
    ensures
        is_white_space(c) <==> {
            let n = c as int;
            9 <= n <= 13 || n == 32 || n == 0x85 || n == 0xa0 || n == 0x1680 || 0x2000 <= n
                <= 0x200a || n == 0x2028 || n == 0x2029 || n == 0x202f || n == 0x205f || n == 0x3000
        },
{
}

/// The strings of a list are taken one by one, in their order.
pub proof fn lemma_texts(s: Seq<String>, i: int)
    requires
        0 <= i < s.len(),
    ensures
        texts(s).len() == s.len(),
        texts(s)[i] == s[i]@,
{
}

} // verus!
