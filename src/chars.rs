use vstd::prelude::*;
use vstd::std_specs::iter::IteratorSpec;
use vstd::string::*;

verus! {

broadcast use vstd::string::group_string_axioms;

/// Relies on `String::push`: appends one character.
#[verifier::external_body]
pub(crate) fn push_char(s: &mut String, c: char)
    ensures
        final(s)@ == old(s)@.push(c),
{
    s.push(c)
}

/// Unicode's White_Space property, which `char::is_whitespace` tests.
pub open spec fn white_space(c: char) -> bool {
    let u = c as u32;
    (9 <= u <= 13) || u == 32 || u == 0x85 || u == 0xa0 || u == 0x1680 || (0x2000 <= u <= 0x200a)
        || u == 0x2028 || u == 0x2029 || u == 0x202f || u == 0x205f || u == 0x3000
}

/// Whether `c` is White_Space, as `char::is_whitespace` tells.
fn is_whitespace(c: char) -> (r: bool)
    ensures
        r == white_space(c),
{
    let u = c as u32;
    (9 <= u && u <= 13) || u == 32 || u == 0x85 || u == 0xa0 || u == 0x1680 || (0x2000 <= u && u
        <= 0x200a) || u == 0x2028 || u == 0x2029 || u == 0x202f || u == 0x205f || u == 0x3000
}

/// The characters of `s`, in order.
pub fn str_chars(s: &str) -> (r: Vec<char>)
    ensures
        r@ == s@,
{
    let mut it = s.chars();
    let mut out: Vec<char> = Vec::new();
    loop
        invariant_except_break
            out@ + it.remaining() == s@,
            it.obeys_prophetic_iter_laws(),
            it.decrease() is Some,
        ensures
            out@ == s@,
        decreases it.decrease()->0,
    {
        match it.next() {
            Some(c) => {
                out.push(c);
            },
            None => {
                assert(out@ + it.remaining() == out@);
                assert(out@ == s@);
                break ;
            },
        }
    }
    out
}

/// A `String` holding `cs[lo..hi]`.
pub fn string_of(cs: &[char], lo: usize, hi: usize) -> (r: String)
    requires
        lo <= hi <= cs@.len(),
    ensures
        r@ == cs@.subrange(lo as int, hi as int),
{
    let mut out = String::new();
    let mut i = lo;
    while i < hi
        invariant
            lo <= i <= hi <= cs@.len(),
            out@ == cs@.subrange(lo as int, i as int),
        decreases hi - i,
    {
        push_char(&mut out, cs[i]);
        i += 1;
        assert(out@ =~= cs@.subrange(lo as int, i as int));
    }
    out
}

/// Whether `cs[lo..hi]` spells `label`.
pub fn eq_label(cs: &[char], lo: usize, hi: usize, label: &str) -> (r: bool)
    requires
        lo <= hi <= cs@.len(),
    ensures
        r == (cs@.subrange(lo as int, hi as int) == label@),
{
    let n = label.unicode_len();
    if hi - lo != n {
        return false;
    }
    let mut i: usize = 0;
    while i < n
        invariant
            n == label@.len(),
            hi - lo == n,
            lo <= hi <= cs@.len(),
            0 <= i <= n,
            forall|j: int| 0 <= j < i ==> cs@[lo + j] == label@[j],
        decreases n - i,
    {
        if cs[lo + i] != label.get_char(i) {
            assert(cs@.subrange(lo as int, hi as int)[i as int] != label@[i as int]);
            return false;
        }
        i += 1;
    }
    assert(cs@.subrange(lo as int, hi as int) =~= label@);
    true
}

/// The decimal digit character for `d`.
pub open spec fn digit_char(d: nat) -> char {
    (48 + d) as char
}

/// The value of a decimal digit character.
pub open spec fn digit_value(c: char) -> nat {
    (c as u32 - 48) as nat
}

pub open spec fn is_digit(c: char) -> bool {
    48 <= c as u32 <= 57
}

/// The decimal numeral of `n`, without leading zeros.
pub open spec fn dec_nat(n: nat) -> Seq<char>
    decreases n,
{
    if n < 10 {
        seq![digit_char(n)]
    } else {
        dec_nat(n / 10).push(digit_char(n % 10))
    }
}

/// The decimal numeral of `v`, with a minus sign when negative.
pub open spec fn dec_int(v: int) -> Seq<char> {
    if v < 0 {
        seq!['-'] + dec_nat((-v) as nat)
    } else {
        dec_nat(v as nat)
    }
}

fn digit(d: u64) -> (c: char)
    requires
        d < 10,
    ensures
        c == digit_char(d as nat),
{
    ((d as u8) + 48) as char
}

/// Appends the decimal numeral of `n`.
pub fn append_u64(out: &mut String, n: u64)
    ensures
        final(out)@ == old(out)@ + dec_nat(n as nat),
    decreases n,
{
    let ghost start = out@;
    if n >= 10 {
        append_u64(out, n / 10);
    }
    push_char(out, digit(n % 10));
    assert(out@ =~= start + dec_nat(n as nat));
}

/// Appends the decimal numeral of `v`, with a minus sign when negative.
pub fn append_i64(out: &mut String, v: i64)
    ensures
        final(out)@ == old(out)@ + dec_int(v as int),
{
    let ghost start = out@;
    if v < 0 {
        push_char(out, '-');
        let m: u64 = if v == i64::MIN {
            9223372036854775808u64
        } else {
            (-v) as u64
        };
        append_u64(out, m);
        assert(out@ =~= start + dec_int(v as int));
    } else {
        append_u64(out, v as u64);
    }
}

/// `s` without leading White_Space characters.
pub open spec fn trim_start(s: Seq<char>) -> Seq<char>
    decreases s.len(),
{
    if s.len() > 0 && white_space(s[0]) {
        trim_start(s.drop_first())
    } else {
        s
    }
}

/// `s` without trailing White_Space characters.
pub open spec fn trim_end(s: Seq<char>) -> Seq<char>
    decreases s.len(),
{
    if s.len() > 0 && white_space(s.last()) {
        trim_end(s.drop_last())
    } else {
        s
    }
}

/// `s` without surrounding White_Space characters.
pub open spec fn trim(s: Seq<char>) -> Seq<char> {
    trim_end(trim_start(s))
}

/// The bounds of `cs[lo..hi]` with surrounding White_Space removed.
pub fn trim_range(cs: &[char], lo: usize, hi: usize) -> (r: (usize, usize))
    requires
        lo <= hi <= cs@.len(),
    ensures
        lo <= r.0 <= r.1 <= hi,
        cs@.subrange(r.0 as int, r.1 as int) == trim(cs@.subrange(lo as int, hi as int)),
{
    let mut a = lo;
    while a < hi && is_whitespace(cs[a])
        invariant
            lo <= a <= hi <= cs@.len(),
            trim_start(cs@.subrange(lo as int, hi as int)) == trim_start(
                cs@.subrange(a as int, hi as int),
            ),
        decreases hi - a,
    {
        assert(cs@.subrange(a as int, hi as int).drop_first() =~= cs@.subrange(
            a + 1,
            hi as int,
        ));
        a += 1;
    }
    let mut b = hi;
    while b > a && is_whitespace(cs[b - 1])
        invariant
            lo <= a <= b <= hi <= cs@.len(),
            trim_end(cs@.subrange(a as int, hi as int)) == trim_end(
                cs@.subrange(a as int, b as int),
            ),
        decreases b - a,
    {
        assert(cs@.subrange(a as int, b as int).drop_last() =~= cs@.subrange(
            a as int,
            b - 1,
        ));
        b -= 1;
    }
    (a, b)
}

/// `cs[lo..hi]` as a line: a carriage return right before the newline at `hi` is dropped.
pub open spec fn line_of(s: Seq<char>, lo: int, hi: int) -> Seq<char> {
    if lo < hi && s[hi - 1] == '\r' {
        s.subrange(lo, hi - 1)
    } else {
        s.subrange(lo, hi)
    }
}

/// The lines of `s` from position `i` on, where the current line began at `start`.
/// A line ends at a newline, which it does not hold, together with a carriage return before
/// it; the last line needs no newline, and a newline at the very end starts no new line.
pub open spec fn lines_scan(s: Seq<char>, i: int, start: int) -> Seq<Seq<char>>
    decreases s.len() - i,
{
    if i >= s.len() {
        if start < s.len() {
            seq![s.subrange(start, s.len() as int)]
        } else {
            seq![]
        }
    } else if s[i] == '\n' {
        seq![line_of(s, start, i)] + lines_scan(s, i + 1, i + 1)
    } else {
        lines_scan(s, i + 1, start)
    }
}

/// The lines of `s`.
pub open spec fn lines(s: Seq<char>) -> Seq<Seq<char>> {
    lines_scan(s, 0, 0)
}

/// Finds the line that starts at `pos`: returns where its text ends and where the next
/// line starts.
pub fn next_line(cs: &[char], pos: usize) -> (r: (usize, usize))
    requires
        pos < cs@.len(),
    ensures
        pos <= r.0 <= cs@.len(),
        pos < r.1 <= cs@.len(),
        lines_scan(cs@, pos as int, pos as int) == seq![cs@.subrange(pos as int, r.0 as int)]
            + lines_scan(cs@, r.1 as int, r.1 as int),
{
    let mut i = pos;
    while i < cs.len() && cs[i] != '\n'
        invariant
            pos <= i <= cs@.len(),
            lines_scan(cs@, pos as int, pos as int) == lines_scan(cs@, i as int, pos as int),
        decreases cs@.len() - i,
    {
        i += 1;
    }
    if i == cs.len() {
        assert(lines_scan(cs@, i as int, i as int) =~= seq![]);
        assert(seq![cs@.subrange(pos as int, i as int)] + seq![] =~= seq![
            cs@.subrange(pos as int, i as int),
        ]);
        (i, i)
    } else {
        if i > pos && cs[i - 1] == '\r' {
            (i - 1, i + 1)
        } else {
            (i, i + 1)
        }
    }
}

/// Whether every character of `s` is a decimal digit.
pub open spec fn all_digits(s: Seq<char>) -> bool {
    forall|i: int| 0 <= i < s.len() ==> is_digit(#[trigger] s[i])
}

/// The value of the decimal numeral `s`.
pub open spec fn digits_value(s: Seq<char>) -> nat
    decreases s.len(),
{
    if s.len() == 0 {
        0
    } else {
        digits_value(s.drop_last()) * 10 + digit_value(s.last())
    }
}

/// `s` without one leading sign character, if it has one.
pub open spec fn unsigned_part(s: Seq<char>) -> Seq<char> {
    if s.len() > 0 && (s[0] == '+' || s[0] == '-') {
        s.drop_first()
    } else {
        s
    }
}

/// The value of a base-10 unsigned 64-bit integer: an optional `+`, then at least one digit,
/// in range.
pub open spec fn parse_u64_spec(s: Seq<char>) -> Option<u64> {
    let d = unsigned_part(s);
    if s.len() > 0 && s[0] == '-' {
        None
    } else if d.len() > 0 && all_digits(d) && digits_value(d) <= u64::MAX {
        Some(digits_value(d) as u64)
    } else {
        None
    }
}

/// The value of a base-10 signed 64-bit integer: an optional `+` or `-`, then at least one
/// digit, in range.
pub open spec fn parse_i64_spec(s: Seq<char>) -> Option<i64> {
    let d = unsigned_part(s);
    let v: int = if s.len() > 0 && s[0] == '-' {
        -digits_value(d)
    } else {
        digits_value(d) as int
    };
    if d.len() > 0 && all_digits(d) && i64::MIN <= v <= i64::MAX {
        Some(v as i64)
    } else {
        None
    }
}

proof fn lemma_digits_prefix(s: Seq<char>, k: int)
    requires
        0 <= k <= s.len(),
    ensures
        digits_value(s.subrange(0, k)) <= digits_value(s),
    decreases s.len(),
{
    if k < s.len() {
        lemma_digits_prefix(s.drop_last(), k);
        assert(s.drop_last().subrange(0, k) =~= s.subrange(0, k));
    } else {
        assert(s.subrange(0, k) =~= s);
    }
}

/// Reads the digits `cs[lo..hi]` as a number no larger than `limit`.
fn parse_digits(cs: &[char], lo: usize, hi: usize, limit: u64) -> (r: Option<u64>)
    requires
        lo <= hi <= cs@.len(),
        limit >= 9,
    ensures
        ({
            let d = cs@.subrange(lo as int, hi as int);
            r == if d.len() > 0 && all_digits(d) && digits_value(d) <= limit {
                Some(digits_value(d) as u64)
            } else {
                None
            }
        }),
{
    let ghost d = cs@.subrange(lo as int, hi as int);
    if lo == hi {
        return None;
    }
    let mut v: u64 = 0;
    let mut i = lo;
    while i < hi
        invariant
            lo <= i <= hi <= cs@.len(),
            d == cs@.subrange(lo as int, hi as int),
            all_digits(cs@.subrange(lo as int, i as int)),
            v as nat == digits_value(cs@.subrange(lo as int, i as int)),
            v <= limit,
            limit >= 9,
        decreases hi - i,
    {
        let cu = cs[i] as u32;
        if !(48 <= cu && cu <= 57) {
            assert(!is_digit(d[i - lo]));
            return None;
        }
        let dv: u64 = (cu - 48) as u64;
        assert(dv <= 9);
        assert(cs@.subrange(lo as int, i + 1).drop_last() =~= cs@.subrange(lo as int, i as int));
        if v > (limit - dv) / 10 {
            proof {
                assert(v * 10 + dv > limit) by (nonlinear_arith)
                    requires
                        v > (limit - dv) / 10,
                        dv <= 9,
                        dv <= limit,
                ;
                if all_digits(d) {
                    assert(d.subrange(0, i + 1 - lo) =~= cs@.subrange(lo as int, i + 1));
                    lemma_digits_prefix(d, i + 1 - lo);
                }
            }
            return None;
        }
        assert(v * 10 + dv <= limit) by (nonlinear_arith)
            requires
                v <= (limit - dv) / 10,
                dv <= limit,
        ;
        v = v * 10 + dv;
        i += 1;
        assert(all_digits(cs@.subrange(lo as int, i as int)));
    }
    assert(cs@.subrange(lo as int, i as int) =~= d);
    Some(v)
}

/// Reads `cs[lo..hi]` as a base-10 unsigned 64-bit integer.
pub fn parse_u64(cs: &[char], lo: usize, hi: usize) -> (r: Option<u64>)
    requires
        lo <= hi <= cs@.len(),
    ensures
        r == parse_u64_spec(cs@.subrange(lo as int, hi as int)),
{
    let ghost s = cs@.subrange(lo as int, hi as int);
    if lo < hi && cs[lo] == '-' {
        return None;
    }
    if lo < hi && cs[lo] == '+' {
        assert(s.drop_first() =~= cs@.subrange(lo + 1, hi as int));
        parse_digits(cs, lo + 1, hi, u64::MAX)
    } else {
        parse_digits(cs, lo, hi, u64::MAX)
    }
}

/// Reads `cs[lo..hi]` as a base-10 signed 64-bit integer.
pub fn parse_i64(cs: &[char], lo: usize, hi: usize) -> (r: Option<i64>)
    requires
        lo <= hi <= cs@.len(),
    ensures
        r == parse_i64_spec(cs@.subrange(lo as int, hi as int)),
{
    let ghost s = cs@.subrange(lo as int, hi as int);
    if lo < hi && cs[lo] == '-' {
        assert(s.drop_first() =~= cs@.subrange(lo + 1, hi as int));
        match parse_digits(cs, lo + 1, hi, 9223372036854775808u64) {
            Some(m) => {
                if m == 9223372036854775808u64 {
                    Some(i64::MIN)
                } else {
                    Some(-(m as i64))
                }
            },
            None => None,
        }
    } else {
        let start = if lo < hi && cs[lo] == '+' {
            assert(s.drop_first() =~= cs@.subrange(lo + 1, hi as int));
            lo + 1
        } else {
            lo
        };
        match parse_digits(cs, start, hi, 9223372036854775807u64) {
            Some(m) => Some(m as i64),
            None => None,
        }
    }
}

/// `s` without one pair of surrounding double quotes, if it has them.
pub open spec fn strip_quote_pair(s: Seq<char>) -> Seq<char> {
    if s.len() >= 2 && s[0] == '"' && s.last() == '"' {
        s.subrange(1, s.len() - 1)
    } else {
        s
    }
}

/// A `String` holding `cs[lo..hi]` without one pair of surrounding double quotes.
pub fn unquoted_string(cs: &[char], lo: usize, hi: usize) -> (r: String)
    requires
        lo <= hi <= cs@.len(),
    ensures
        r@ == strip_quote_pair(cs@.subrange(lo as int, hi as int)),
{
    let ghost t = cs@.subrange(lo as int, hi as int);
    if hi - lo >= 2 && cs[lo] == '"' && cs[hi - 1] == '"' {
        assert(t.subrange(1, t.len() - 1) =~= cs@.subrange(lo + 1, hi - 1));
        string_of(cs, lo + 1, hi - 1)
    } else {
        string_of(cs, lo, hi)
    }
}

/// A copy of `cs[lo..hi]`.
pub fn copy_range(cs: &[char], lo: usize, hi: usize) -> (r: Vec<char>)
    requires
        lo <= hi <= cs@.len(),
    ensures
        r@ == cs@.subrange(lo as int, hi as int),
{
    let mut out: Vec<char> = Vec::new();
    let mut i = lo;
    while i < hi
        invariant
            lo <= i <= hi <= cs@.len(),
            out@ == cs@.subrange(lo as int, i as int),
        decreases hi - i,
    {
        out.push(cs[i]);
        i += 1;
        assert(out@ =~= cs@.subrange(lo as int, i as int));
    }
    out
}

/// Appends the characters of `t`.
pub fn append_string(out: &mut String, t: &String)
    ensures
        final(out)@ == old(out)@ + t@,
{
    out.append(t.as_str());
}

/// The numeral of `n` is a non-empty run of digits whose value is `n`.
pub proof fn lemma_dec_nat(n: nat)
    ensures
        dec_nat(n).len() > 0,
        all_digits(dec_nat(n)),
        digits_value(dec_nat(n)) == n,
    decreases n,
{
    let c = digit_char(n % 10);
    assert((48 + n % 10) as char as u32 == 48 + n % 10);
    if n >= 10 {
        lemma_dec_nat(n / 10);
        let s = dec_nat(n / 10);
        assert(s.push(c).drop_last() =~= s);
        assert(digit_value(c) == n % 10);
        assert(digits_value(s.push(c)) == digits_value(s) * 10 + digit_value(s.push(c).last()));
        assert((n / 10) * 10 + n % 10 == n);
        assert forall|i: int| 0 <= i < s.push(c).len() implies is_digit(#[trigger] s.push(c)[i]) by {
            if i < s.len() {
                assert(s.push(c)[i] == s[i]);
            }
        }
    } else {
        assert(seq![c].drop_last() =~= Seq::<char>::empty());
        assert(digit_value(c) == n % 10);
        assert(digits_value(Seq::<char>::empty()) == 0);
        assert(digits_value(seq![c]) == digits_value(seq![c].drop_last()) * 10 + digit_value(c));
    }
}

/// Reading back the numeral of an unsigned integer gives it.
pub proof fn lemma_parse_dec_u64(v: u64)
    ensures
        parse_u64_spec(dec_nat(v as nat)) == Some(v),
{
    lemma_dec_nat(v as nat);
    assert(is_digit(dec_nat(v as nat)[0]));
}

/// Reading back the numeral of a signed integer gives it.
pub proof fn lemma_parse_dec_i64(v: i64)
    ensures
        parse_i64_spec(dec_int(v as int)) == Some(v),
{
    if v < 0 {
        let m = (-v) as nat;
        lemma_dec_nat(m);
        let s = seq!['-'] + dec_nat(m);
        assert(s.drop_first() =~= dec_nat(m));
    } else {
        lemma_dec_nat(v as nat);
        assert(is_digit(dec_nat(v as nat)[0]));
    }
}

/// Characters other than newlines do not end a line.
pub proof fn lemma_lines_skip(s: Seq<char>, i: int, k: int, start: int)
    requires
        0 <= i <= k <= s.len(),
        forall|j: int| i <= j < k ==> s[j] != '\n',
    ensures
        lines_scan(s, i, start) == lines_scan(s, k, start),
    decreases k - i,
{
    if i < k {
        lemma_lines_skip(s, i + 1, k, start);
    }
}

/// The lines of two newline-ended lines that hold no newline and do not end in a carriage
/// return.
pub proof fn lemma_two_lines(a: Seq<char>, b: Seq<char>)
    requires
        a.len() > 0,
        b.len() > 0,
        forall|j: int| 0 <= j < a.len() ==> a[j] != '\n',
        forall|j: int| 0 <= j < b.len() ==> b[j] != '\n',
        a.last() != '\r',
        b.last() != '\r',
    ensures
        lines(a + seq!['\n'] + b + seq!['\n']) == seq![a, b],
{
    let s = a + seq!['\n'] + b + seq!['\n'];
    let n = a.len() as int;
    let m = b.len() as int;
    assert forall|j: int| 0 <= j < n implies s[j] != '\n' by {
        assert(s[j] == a[j]);
    }
    lemma_lines_skip(s, 0, n, 0);
    assert(s[n] == '\n');
    assert(s[n - 1] == a.last());
    assert(s.subrange(0, n) =~= a);
    assert forall|j: int| n + 1 <= j < n + 1 + m implies s[j] != '\n' by {
        assert(s[j] == b[j - n - 1]);
    }
    lemma_lines_skip(s, n + 1, n + 1 + m, n + 1);
    assert(s[n + 1 + m] == '\n');
    assert(s[n + m] == b.last());
    assert(s.subrange(n + 1, n + 1 + m) =~= b);
    assert(lines_scan(s, s.len() as int, s.len() as int) == Seq::<Seq<char>>::empty());
    assert(seq![a] + (seq![b] + Seq::<Seq<char>>::empty()) =~= seq![a, b]);
}

/// Whether `c` does not occur in `s`.
pub open spec fn lacks(s: Seq<char>, c: char) -> bool {
    forall|j: int| 0 <= j < s.len() ==> s[j] != c
}

pub proof fn lemma_lacks_concat(a: Seq<char>, b: Seq<char>, c: char)
    requires
        lacks(a, c),
        lacks(b, c),
    ensures
        lacks(a + b, c),
{
    assert forall|j: int| 0 <= j < (a + b).len() implies (a + b)[j] != c by {
        if j < a.len() {
            assert((a + b)[j] == a[j]);
        } else {
            assert((a + b)[j] == b[j - a.len()]);
        }
    }
}

/// A numeral holds no character other than digits and a leading minus sign.
pub proof fn lemma_dec_lacks(v: int, c: char)
    requires
        !is_digit(c),
        c != '-',
    ensures
        lacks(dec_int(v), c),
        v >= 0 ==> lacks(dec_nat(v as nat), c),
        dec_int(v).len() > 0,
        is_digit(dec_int(v).last()),
        v >= 0 ==> is_digit(dec_int(v)[0]),
{
    if v < 0 {
        let m = (-v) as nat;
        lemma_dec_nat(m);
        let s = seq!['-'] + dec_nat(m);
        assert forall|j: int| 0 <= j < s.len() implies s[j] != c by {
            if j > 0 {
                assert(s[j] == dec_nat(m)[j - 1]);
            }
        }
        assert(s.last() == dec_nat(m).last());
    } else {
        lemma_dec_nat(v as nat);
        assert(is_digit(dec_nat(v as nat)[0]));
    }
    if v >= 0 {
        lemma_dec_nat(v as nat);
    }
}

proof fn lemma_lines_shift(x: Seq<char>, y: Seq<char>, i: int, st: int)
    requires
        0 <= st <= i <= y.len(),
    ensures
        lines_scan(x + y, x.len() + i, x.len() + st) == lines_scan(y, i, st),
    decreases y.len() - i,
{
    let s = x + y;
    let n = x.len() as int;
    if i < y.len() {
        assert(s[n + i] == y[i]);
        if y[i] == '\n' {
            assert(s.subrange(n + st, n + i) =~= y.subrange(st, i));
            if st < i {
                assert(s.subrange(n + st, n + i - 1) =~= y.subrange(st, i - 1));
                assert(s[n + i - 1] == y[i - 1]);
            }
            lemma_lines_shift(x, y, i + 1, i + 1);
        } else {
            lemma_lines_shift(x, y, i + 1, st);
        }
    } else {
        assert(s.subrange(n + st, s.len() as int) =~= y.subrange(st, y.len() as int));
    }
}

/// A line that holds no newline and does not end in a carriage return, then a newline,
/// starts the lines of a text.
pub proof fn lemma_lines_cons(a: Seq<char>, rest: Seq<char>)
    requires
        lacks(a, '\n'),
        a.len() == 0 || a.last() != '\r',
    ensures
        lines(a + seq!['\n'] + rest) == seq![a] + lines(rest),
{
    let x = a + seq!['\n'];
    let s = x + rest;
    let n = a.len() as int;
    assert forall|j: int| 0 <= j < n implies s[j] != '\n' by {
        assert(s[j] == a[j]);
    }
    lemma_lines_skip(s, 0, n, 0);
    assert(s[n] == '\n');
    if n > 0 {
        assert(s[n - 1] == a.last());
    }
    assert(s.subrange(0, n) =~= a);
    lemma_lines_shift(x, rest, 0, 0);
}

/// Stripping the quote pair of a quoted text gives the text.
pub proof fn lemma_unquote(d: Seq<char>)
    ensures
        strip_quote_pair(seq!['"'] + d + seq!['"']) == d,
{
    let s = seq!['"'] + d + seq!['"'];
    assert(s.subrange(1, s.len() - 1) =~= d);
}

/// Why text does not read as an integer, as std's integer parsing reports it.
#[derive(Debug, Clone, Copy, PartialEq, Eq, Structural)]
pub enum IntError {
    Empty,
    InvalidDigit,
    PosOverflow,
    NegOverflow,
}

/// The first failure met reading the digits `d` from `i` on, the magnitude read so far being
/// `v`: a character that is no digit, or a magnitude past `limit`; none if all read.
pub open spec fn digits_failure(d: Seq<char>, i: int, v: nat, limit: nat, neg: bool) -> Option<
    IntError,
>
    decreases d.len() - i,
{
    if i >= d.len() || i < 0 {
        None
    } else if !is_digit(d[i]) {
        Some(IntError::InvalidDigit)
    } else if v * 10 + digit_value(d[i]) > limit {
        Some(
            if neg {
                IntError::NegOverflow
            } else {
                IntError::PosOverflow
            },
        )
    } else {
        digits_failure(d, i + 1, v * 10 + digit_value(d[i]), limit, neg)
    }
}

/// The failure met reading `s` as a 64-bit integer, signed or not: empty text, a lone sign,
/// then the digits from left to right; none if `s` reads.
pub open spec fn int_failure(s: Seq<char>, signed: bool) -> Option<IntError> {
    if s.len() == 0 {
        Some(IntError::Empty)
    } else if s.len() == 1 && (s[0] == '+' || s[0] == '-') {
        Some(IntError::InvalidDigit)
    } else {
        let neg = signed && s[0] == '-';
        let d = if s[0] == '+' || neg {
            s.drop_first()
        } else {
            s
        };
        let limit: nat = if !signed {
            0xffff_ffff_ffff_ffff
        } else if neg {
            0x8000_0000_0000_0000
        } else {
            0x7fff_ffff_ffff_ffff
        };
        digits_failure(d, 0, 0, limit, neg)
    }
}

/// The words std uses for each failure.
pub open spec fn int_message(e: IntError) -> Seq<char> {
    match e {
        IntError::Empty => "cannot parse integer from empty string"@,
        IntError::InvalidDigit => "invalid digit found in string"@,
        IntError::PosOverflow => "number too large to fit in target type"@,
        IntError::NegOverflow => "number too small to fit in target type"@,
    }
}

impl IntError {
    pub fn message(&self) -> (r: &'static str)
        ensures
            r@ == int_message(*self),
    {
        match self {
            IntError::Empty => "cannot parse integer from empty string",
            IntError::InvalidDigit => "invalid digit found in string",
            IntError::PosOverflow => "number too large to fit in target type",
            IntError::NegOverflow => "number too small to fit in target type",
        }
    }
}

/// Finds the failure met reading `cs[lo..hi]` as a 64-bit integer, signed or not.
pub fn int_failure_of(cs: &[char], lo: usize, hi: usize, signed: bool) -> (r: Option<IntError>)
    requires
        lo <= hi <= cs@.len(),
    ensures
        r == int_failure(cs@.subrange(lo as int, hi as int), signed),
{
    let ghost s = cs@.subrange(lo as int, hi as int);
    if lo == hi {
        return Some(IntError::Empty);
    }
    if hi - lo == 1 && (cs[lo] == '+' || cs[lo] == '-') {
        return Some(IntError::InvalidDigit);
    }
    let neg = signed && cs[lo] == '-';
    let start = if cs[lo] == '+' || neg {
        lo + 1
    } else {
        lo
    };
    let limit: u64 = if !signed {
        0xffff_ffff_ffff_ffff
    } else if neg {
        0x8000_0000_0000_0000
    } else {
        0x7fff_ffff_ffff_ffff
    };
    let ghost d = cs@.subrange(start as int, hi as int);
    assert(start == lo + 1 ==> s.drop_first() =~= d);
    assert(start == lo ==> s =~= d);
    assert(s[0] == cs@[lo as int]);
    assert(int_failure(s, signed) == digits_failure(d, 0, 0, limit as nat, neg));
    let mut v: u64 = 0;
    let mut i = start;
    while i < hi
        invariant
            start <= i <= hi <= cs@.len(),
            d == cs@.subrange(start as int, hi as int),
            int_failure(cs@.subrange(lo as int, hi as int), signed) == digits_failure(
                d,
                0,
                0,
                limit as nat,
                neg,
            ),
            v <= limit,
            limit >= 9,
            digits_failure(d, 0, 0, limit as nat, neg) == digits_failure(
                d,
                i - start,
                v as nat,
                limit as nat,
                neg,
            ),
        decreases hi - i,
    {
        let cu = cs[i] as u32;
        assert(d[i - start] == cs@[i as int]);
        if !(48 <= cu && cu <= 57) {
            assert(!is_digit(d[i - start]));
            return Some(IntError::InvalidDigit);
        }
        let dv: u64 = (cu - 48) as u64;
        assert(dv <= 9);
        if v > (limit - dv) / 10 {
            assert(v * 10 + dv > limit) by (nonlinear_arith)
                requires
                    v > (limit - dv) / 10,
                    dv <= 9,
                    dv <= limit,
            ;
            assert(digit_value(d[i - start]) == dv);
            return Some(
                if neg {
                    IntError::NegOverflow
                } else {
                    IntError::PosOverflow
                },
            );
        }
        assert(v * 10 + dv <= limit) by (nonlinear_arith)
            requires
                v <= (limit - dv) / 10,
                dv <= limit,
        ;
        assert(digit_value(d[i - start]) == dv);
        v = v * 10 + dv;
        i += 1;
    }
    None
}

/// The failure reported for text that does not read as an integer; the fallback is never
/// taken for such text (`lemma_failure_met`).
pub open spec fn reported_failure(s: Seq<char>, signed: bool) -> IntError {
    match int_failure(s, signed) {
        Some(e) => e,
        None => IntError::InvalidDigit,
    }
}

/// The words that tell why `cs[lo..hi]` does not read as an integer.
pub fn int_reason(cs: &[char], lo: usize, hi: usize, signed: bool) -> (r: String)
    requires
        lo <= hi <= cs@.len(),
    ensures
        r@ == int_message(reported_failure(cs@.subrange(lo as int, hi as int), signed)),
{
    let e = match int_failure_of(cs, lo, hi, signed) {
        Some(e) => e,
        None => IntError::InvalidDigit,
    };
    String::from_str(e.message())
}

proof fn lemma_digits_no_failure(d: Seq<char>, i: int, v: nat, limit: nat, neg: bool)
    requires
        0 <= i <= d.len(),
        all_digits(d.subrange(0, i)),
        v == digits_value(d.subrange(0, i)),
        v <= limit,
        digits_failure(d, i, v, limit, neg) is None,
    ensures
        all_digits(d),
        digits_value(d) <= limit,
    decreases d.len() - i,
{
    if i < d.len() {
        let w = v * 10 + digit_value(d[i]);
        assert(d.subrange(0, i + 1).drop_last() =~= d.subrange(0, i));
        assert(all_digits(d.subrange(0, i + 1))) by {
            assert forall|j: int| 0 <= j < i + 1 implies is_digit(#[trigger] d.subrange(0, i + 1)[j]) by {
                if j < i {
                    assert(d.subrange(0, i + 1)[j] == d.subrange(0, i)[j]);
                }
            }
        }
        lemma_digits_no_failure(d, i + 1, w, limit, neg);
    } else {
        assert(d.subrange(0, i) =~= d);
    }
}

/// Text that does not read as an integer always meets one of the failures that `int_failure`
/// names, so `reported_failure` never falls back.
pub proof fn lemma_failure_met(s: Seq<char>)
    ensures
        parse_u64_spec(s) is None ==> int_failure(s, false) is Some,
        parse_i64_spec(s) is None ==> int_failure(s, true) is Some,
{
    if s.len() >= 2 || (s.len() == 1 && s[0] != '+' && s[0] != '-') {
        assert(Seq::<char>::empty() =~= s.subrange(0, 0));
        assert(digits_value(Seq::<char>::empty()) == 0);
        let du = if s[0] == '+' {
            s.drop_first()
        } else {
            s
        };
        if int_failure(s, false) is None {
            lemma_digits_no_failure(du, 0, 0, 0xffff_ffff_ffff_ffff, false);
            if s[0] == '-' {
                assert(!is_digit(du[0]));
            }
            assert(du.subrange(0, 0) =~= Seq::<char>::empty());
        }
        let neg = s[0] == '-';
        let ds = if s[0] == '+' || neg {
            s.drop_first()
        } else {
            s
        };
        let limit: nat = if neg {
            0x8000_0000_0000_0000
        } else {
            0x7fff_ffff_ffff_ffff
        };
        if int_failure(s, true) is None {
            assert(ds.subrange(0, 0) =~= Seq::<char>::empty());
            lemma_digits_no_failure(ds, 0, 0, limit, neg);
        }
    }
}

} // verus!
