//! Strings as sequences of characters: comparison, trimming, splitting, searching.
use vstd::prelude::*;
use vstd::utf8::*;

verus! {

/// `String::push` appends one character to the end of the string.
pub assume_specification[ String::push ](s: &mut String, ch: char)
    ensures
        final(s)@ == old(s)@.push(ch),
;

/// The characters of each string of a list.
pub open spec fn views(v: Seq<String>) -> Seq<Seq<char>> {
    v.map_values(|s: String| s@)
}

/// The characters of `s`, in order.
pub fn chars_of(s: &str) -> (v: Vec<char>)
    ensures
        v@ == s@,
{
    let mut v: Vec<char> = Vec::new();
    for c in it: s.chars()
        invariant
            it.seq() == s@,
            v@ == s@.take(it.index()),
    {
        v.push(c);
        assert(s@.take(it.index() + 1) =~= s@.take(it.index()).push(c));
    }
    assert(s@.take(s@.len() as int) =~= s@);
    v
}

/// The string that holds the characters `v[from..to]`.
pub fn string_of(v: &Vec<char>, from: usize, to: usize) -> (s: String)
    requires
        from <= to <= v@.len(),
    ensures
        s@ == v@.subrange(from as int, to as int),
{
    let mut s = String::new();
    let mut i: usize = from;
    while i < to
        invariant
            from <= i <= to <= v@.len(),
            s@ == v@.subrange(from as int, i as int),
        decreases to - i,
    {
        s.push(v[i]);
        i += 1;
        assert(v@.subrange(from as int, i as int) =~= v@.subrange(from as int, i - 1).push(
            v@[i - 1],
        ));
    }
    s
}

/// Whether two strings hold the same characters.
pub fn str_eq(a: &str, b: &str) -> (r: bool)
    ensures
        r == (a@ == b@),
{
    let x = a.as_bytes();
    let y = b.as_bytes();
    proof {
        encode_utf8_decode_utf8(a@);
        encode_utf8_decode_utf8(b@);
    }
    if x.len() != y.len() {
        return false;
    }
    let mut i: usize = 0;
    while i < x.len()
        invariant
            x@ == encode_utf8(a@),
            y@ == encode_utf8(b@),
            x@.len() == y@.len(),
            i <= x@.len(),
            forall|j: int| 0 <= j < i ==> x@[j] == y@[j],
        decreases x@.len() - i,
    {
        if x[i] != y[i] {
            return false;
        }
        i += 1;
    }
    assert(x@ =~= y@);
    true
}

/// Whether `p` stands in `s` at position `at`.
pub open spec fn occurs_at(s: Seq<char>, p: Seq<char>, at: int) -> bool {
    0 <= at && at + p.len() <= s.len() && s.subrange(at, at + p.len()) == p
}

/// Whether `p` stands in `s` at position `at`, on lists of characters.
fn matches_at(s: &Vec<char>, p: &Vec<char>, at: usize) -> (r: bool)
    requires
        at <= s@.len(),
    ensures
        r == occurs_at(s@, p@, at as int),
{
    if p.len() > s.len() - at {
        return false;
    }
    let mut i: usize = 0;
    while i < p.len()
        invariant
            at + p@.len() <= s.len(),
            i <= p@.len(),
            forall|j: int| 0 <= j < i ==> s@[at + j] == p@[j],
        decreases p@.len() - i,
    {
        if s[at + i] != p[i] {
            assert(s@.subrange(at as int, at + p@.len())[i as int] != p@[i as int]);
            return false;
        }
        i += 1;
    }
    assert(s@.subrange(at as int, at + p@.len()) =~= p@);
    true
}

/// Whether `s` begins with `p`.
pub fn starts_with(s: &str, p: &str) -> (r: bool)
    ensures
        r == p@.is_prefix_of(s@),
{
    let cs = chars_of(s);
    let cp = chars_of(p);
    matches_at(&cs, &cp, 0)
}

/// Whether `p` stands somewhere in `s`.
pub open spec fn has_substring(s: Seq<char>, p: Seq<char>) -> bool {
    exists|at: int| #[trigger] occurs_at(s, p, at)
}

/// Whether `p` stands somewhere in `s`.
pub fn contains_str(s: &str, p: &str) -> (r: bool)
    ensures
        r == has_substring(s@, p@),
{
    let cs = chars_of(s);
    let cp = chars_of(p);
    let mut at: usize = 0;
    while at < cs.len()
        invariant
            cs@ == s@,
            cp@ == p@,
            at <= cs@.len(),
            forall|j: int| 0 <= j < at ==> !#[trigger] occurs_at(s@, p@, j),
        decreases cs@.len() - at,
    {
        if matches_at(&cs, &cp, at) {
            return true;
        }
        at += 1;
    }
    let r = matches_at(&cs, &cp, at);
    assert(forall|j: int| #[trigger] occurs_at(s@, p@, j) ==> j <= at);
    r
}

/// `s` without the prefix `p`, where it has that prefix.
pub open spec fn without_prefix(s: Seq<char>, p: Seq<char>) -> Option<Seq<char>> {
    if p.is_prefix_of(s) {
        Some(s.skip(p.len() as int))
    } else {
        None
    }
}

/// `s` without the prefix `p`; `None` where it does not begin with `p`.
pub fn strip_prefix(s: &str, p: &str) -> (r: Option<String>)
    ensures
        match r {
            Some(t) => without_prefix(s@, p@) == Some(t@),
            None => without_prefix(s@, p@) is None,
        },
{
    let cs = chars_of(s);
    let cp = chars_of(p);
    if matches_at(&cs, &cp, 0) {
        let n = cs.len();
        let k = cp.len();
        assert(s@.skip(p@.len() as int) =~= s@.subrange(p@.len() as int, s@.len() as int));
        Some(string_of(&cs, k, n))
    } else {
        None
    }
}

/// The two strings one after the other.
pub fn join2(a: &str, b: &str) -> (r: String)
    ensures
        r@ == a@ + b@,
{
    let mut r = a.to_owned();
    r.append(b);
    r
}

/// The three strings one after the other.
pub fn join3(a: &str, b: &str, c: &str) -> (r: String)
    ensures
        r@ == a@ + b@ + c@,
{
    let mut r = a.to_owned();
    r.append(b);
    r.append(c);
    r
}

/// The characters with the Unicode property `White_Space`.
pub open spec fn is_white_space(c: char) -> bool {
    ||| '\u{9}' <= c <= '\u{d}'
    ||| c == ' '
    ||| c == '\u{85}'
    ||| c == '\u{a0}'
    ||| c == '\u{1680}'
    ||| '\u{2000}' <= c <= '\u{200a}'
    ||| c == '\u{2028}'
    ||| c == '\u{2029}'
    ||| c == '\u{202f}'
    ||| c == '\u{205f}'
    ||| c == '\u{3000}'
}

/// Whether `c` has the Unicode property `White_Space`.
pub fn white_space(c: char) -> (r: bool)
    ensures
        r == is_white_space(c),
{
    ('\u{9}' <= c && c <= '\u{d}') || c == ' ' || c == '\u{85}' || c == '\u{a0}' || c == '\u{1680}'
        || ('\u{2000}' <= c && c <= '\u{200a}') || c == '\u{2028}' || c == '\u{2029}' || c
        == '\u{202f}' || c == '\u{205f}' || c == '\u{3000}'
}

/// `s` without its leading white space.
pub open spec fn trimmed_start(s: Seq<char>) -> Seq<char>
    decreases s.len(),
{
    if s.len() > 0 && is_white_space(s[0]) {
        trimmed_start(s.drop_first())
    } else {
        s
    }
}

/// `s` without its trailing white space.
pub open spec fn trimmed_end(s: Seq<char>) -> Seq<char>
    decreases s.len(),
{
    if s.len() > 0 && is_white_space(s.last()) {
        trimmed_end(s.drop_last())
    } else {
        s
    }
}

/// `s` without the white space at both ends.
pub open spec fn trimmed(s: Seq<char>) -> Seq<char> {
    trimmed_end(trimmed_start(s))
}

/// Trimming `v[from..to]`: what is left lies at `r.0..r.1`.
fn trim_range(v: &Vec<char>, from: usize, to: usize) -> (r: (usize, usize))
    requires
        from <= to <= v@.len(),
    ensures
        from <= r.0 <= r.1 <= to,
        v@.subrange(r.0 as int, r.1 as int) == trimmed(v@.subrange(from as int, to as int)),
{
    let mut a: usize = from;
    while a < to && white_space(v[a])
        invariant
            from <= a <= to <= v@.len(),
            trimmed_start(v@.subrange(a as int, to as int)) == trimmed_start(
                v@.subrange(from as int, to as int),
            ),
        decreases to - a,
    {
        assert(v@.subrange(a as int, to as int).drop_first() =~= v@.subrange(a + 1, to as int));
        a += 1;
    }
    let ghost mid = v@.subrange(a as int, to as int);
    assert(trimmed_start(mid) == mid);
    let mut b: usize = to;
    while a < b && white_space(v[b - 1])
        invariant
            a <= b <= to <= v@.len(),
            mid == v@.subrange(a as int, to as int),
            trimmed_end(v@.subrange(a as int, b as int)) == trimmed_end(mid),
        decreases b,
    {
        assert(v@.subrange(a as int, b as int).drop_last() =~= v@.subrange(a as int, b - 1));
        b -= 1;
    }
    (a, b)
}

/// `s` without the white space at both ends.
pub fn trim(s: &str) -> (r: String)
    ensures
        r@ == trimmed(s@),
{
    let cs = chars_of(s);
    let n = cs.len();
    let (a, b) = trim_range(&cs, 0, n);
    assert(s@.subrange(0, s@.len() as int) =~= s@);
    string_of(&cs, a, b)
}

/// Whether nothing but white space stands in `s`.
pub open spec fn is_blank(s: Seq<char>) -> bool {
    trimmed(s).len() == 0
}

/// Whether nothing but white space stands in `s`.
pub fn blank(s: &str) -> (r: bool)
    ensures
        r == is_blank(s@),
{
    trim(s).as_str().is_empty()
}

/// The parts of `s` between commas: one more than there are commas.
pub open spec fn comma_parts(s: Seq<char>) -> Seq<Seq<char>>
    decreases s.len(),
{
    if s.len() == 0 {
        seq![Seq::empty()]
    } else if s.last() == ',' {
        comma_parts(s.drop_last()).push(Seq::empty())
    } else {
        let front = comma_parts(s.drop_last());
        front.drop_last().push(front.last().push(s.last()))
    }
}

/// The parts, each trimmed, without those that are then empty.
pub open spec fn trimmed_non_empty(parts: Seq<Seq<char>>) -> Seq<Seq<char>>
    decreases parts.len(),
{
    if parts.len() == 0 {
        Seq::empty()
    } else {
        let front = trimmed_non_empty(parts.drop_last());
        let last = trimmed(parts.last());
        if last.len() > 0 {
            front.push(last)
        } else {
            front
        }
    }
}

/// The entries of a comma-separated list: its parts, trimmed, without the empty ones.
pub open spec fn list_entries(s: Seq<char>) -> Seq<Seq<char>> {
    trimmed_non_empty(comma_parts(s))
}

/// Ends the entry `v[from..to]`: pushes it, trimmed, unless nothing is left of it.
fn push_entry(out: &mut Vec<String>, v: &Vec<char>, from: usize, to: usize)
    requires
        from <= to <= v@.len(),
    ensures
        ({
            let part = trimmed(v@.subrange(from as int, to as int));
            views(final(out)@) == if part.len() > 0 {
                views(old(out)@).push(part)
            } else {
                views(old(out)@)
            }
        }),
{
    let (a, b) = trim_range(v, from, to);
    if a < b {
        let entry = string_of(v, a, b);
        proof {
            assert(views(out@.push(entry)) =~= views(out@).push(entry@));
        }
        out.push(entry);
    }
}

/// The entries of a comma-separated list, in order.
pub fn parse_list(s: &str) -> (out: Vec<String>)
    ensures
        views(out@) == list_entries(s@),
{
    let cs = chars_of(s);
    let mut out: Vec<String> = Vec::new();
    let mut from: usize = 0;
    let mut i: usize = 0;
    assert(views(out@) =~= Seq::empty());
    assert(s@.take(0) =~= Seq::empty());
    assert(comma_parts(s@.take(0)).drop_last() =~= Seq::empty());
    while i < cs.len()
        invariant
            cs@ == s@,
            from <= i <= cs@.len(),
            comma_parts(s@.take(i as int)).len() > 0,
            comma_parts(s@.take(i as int)).last() == s@.subrange(from as int, i as int),
            views(out@) == trimmed_non_empty(comma_parts(s@.take(i as int)).drop_last()),
        decreases cs@.len() - i,
    {
        let ghost before = comma_parts(s@.take(i as int));
        let ghost after = comma_parts(s@.take(i + 1));
        assert(s@.take(i + 1).drop_last() =~= s@.take(i as int));
        if cs[i] == ',' {
            push_entry(&mut out, &cs, from, i);
            from = i + 1;
            assert(after.drop_last() =~= before);
            assert(after.last() =~= s@.subrange(from as int, i + 1));
        } else {
            assert(after.drop_last() =~= before.drop_last());
            assert(after.last() =~= s@.subrange(from as int, i + 1));
        }
        i += 1;
    }
    let n = cs.len();
    assert(s@.take(n as int) =~= s@);
    push_entry(&mut out, &cs, from, n);
    out
}

/// The value of the decimal digits `s`, most significant first.
pub open spec fn decimal_value(s: Seq<char>) -> nat
    decreases s.len(),
{
    if s.len() == 0 {
        0
    } else {
        decimal_value(s.drop_last()) * 10 + (s.last() as nat - '0' as nat) as nat
    }
}

/// Whether `s` is one or more of the digits 0 to 9.
pub open spec fn is_decimal(s: Seq<char>) -> bool {
    s.len() > 0 && forall|i: int| 0 <= i < s.len() ==> '0' <= #[trigger] s[i] <= '9'
}

/// The 16-bit number that `s` writes in decimal, with or without a leading plus
/// sign; `None` where it writes none, or one that is too large.
pub open spec fn decimal_u16(s: Seq<char>) -> Option<nat> {
    let digits = if s.len() > 0 && s[0] == '+' {
        s.drop_first()
    } else {
        s
    };
    if is_decimal(digits) && decimal_value(digits) <= u16::MAX {
        Some(decimal_value(digits))
    } else {
        None
    }
}

/// More digits never write a smaller number.
proof fn lemma_decimal_value_grows(s: Seq<char>, k: int)
    requires
        0 <= k <= s.len(),
        is_decimal(s),
    ensures
        decimal_value(s.take(k)) <= decimal_value(s),
    decreases s.len() - k,
{
    if k < s.len() {
        assert(s.take(k + 1).drop_last() =~= s.take(k));
        lemma_decimal_value_grows(s, k + 1);
    } else {
        assert(s.take(k) =~= s);
    }
}

/// Reads a 16-bit decimal number.
pub fn parse_u16(s: &str) -> (r: Option<u16>)
    ensures
        match r {
            Some(v) => decimal_u16(s@) == Some(v as nat),
            None => decimal_u16(s@) is None,
        },
{
    let all = chars_of(s);
    let plus = all.len() > 0 && all[0] == '+';
    let ghost digits = if s@.len() > 0 && s@[0] == '+' {
        s@.drop_first()
    } else {
        s@
    };
    let skip: usize = if plus { 1 } else { 0 };
    if all.len() == skip {
        return None;
    }
    let mut value: u32 = 0;
    let mut i: usize = skip;
    assert(digits.take(0) =~= Seq::empty());
    while i < all.len()
        invariant
            all@ == s@,
            skip <= i <= all@.len(),
            digits == if s@.len() > 0 && s@[0] == '+' {
                s@.drop_first()
            } else {
                s@
            },
            skip == if s@.len() > 0 && s@[0] == '+' {
                1int
            } else {
                0int
            },
            digits.len() > 0,
            forall|j: int| 0 <= j < i - skip ==> '0' <= #[trigger] digits[j] <= '9',
            value == decimal_value(digits.take(i - skip)),
            value <= u16::MAX,
        decreases all@.len() - i,
    {
        let c = all[i];
        assert(c == digits[i - skip]);
        if c < '0' || c > '9' {
            assert(!is_decimal(digits));
            return None;
        }
        assert(digits.take(i - skip + 1).drop_last() =~= digits.take(i - skip));
        value = value * 10 + (c as u32 - '0' as u32);
        i += 1;
        if value > 65535 {
            proof {
                if is_decimal(digits) {
                    lemma_decimal_value_grows(digits, i - skip);
                }
            }
            return None;
        }
    }
    assert(digits.take(i - skip) =~= digits);
    Some(value as u16)
}

/// The decimal digits of `n`, most significant first and without leading zeros.
pub open spec fn decimal_digits(n: nat) -> Seq<char>
    decreases n,
{
    let digit = ('0' as u32 + n % 10) as char;
    if n < 10 {
        seq![digit]
    } else {
        decimal_digits(n / 10).push(digit)
    }
}

/// Writes a 16-bit number in decimal.
pub fn decimal(n: u16) -> (r: String)
    ensures
        r@ == decimal_digits(n as nat),
    decreases n,
{
    let digit = ('0' as u8 + (n % 10) as u8) as char;
    if n < 10 {
        let mut r = String::new();
        r.push(digit);
        assert(r@ =~= decimal_digits(n as nat));
        r
    } else {
        let mut r = decimal(n / 10);
        r.push(digit);
        r
    }
}

/// Digits write the number that they are the digits of.
proof fn lemma_decimal_digits(n: nat)
    ensures
        is_decimal(decimal_digits(n)),
        decimal_value(decimal_digits(n)) == n,
    decreases n,
{
    let s = decimal_digits(n);
    let digit = ('0' as u32 + n % 10) as char;
    assert('0' <= digit <= '9');
    if n < 10 {
        assert(s.drop_last() =~= Seq::empty());
        assert(decimal_value(s.drop_last()) == 0);
    } else {
        lemma_decimal_digits(n / 10);
        assert(s.drop_last() =~= decimal_digits(n / 10));
    }
}

/// A number that is written is read back.
pub proof fn law_decimal_is_read_back(n: u16)
    ensures
        decimal_u16(decimal_digits(n as nat)) == Some(n as nat),
{
    lemma_decimal_digits(n as nat);
    assert('0' <= decimal_digits(n as nat)[0] <= '9');
}

/// The bytes of two strings one after the other are their bytes one after the other.
pub proof fn lemma_encode_concat(a: Seq<char>, b: Seq<char>)
    ensures
        encode_utf8(a + b) == encode_utf8(a) + encode_utf8(b),
    decreases a.len(),
{
    if a.len() == 0 {
        assert(a + b =~= b);
        assert(encode_utf8(a) + encode_utf8(b) =~= encode_utf8(b));
    } else {
        assert((a + b).drop_first() =~= a.drop_first() + b);
        lemma_encode_concat(a.drop_first(), b);
        assert(encode_utf8(a + b) =~= encode_utf8(a) + encode_utf8(b));
    }
}

/// Strings with the same bytes hold the same characters.
pub proof fn lemma_bytes_determine(a: Seq<char>, b: Seq<char>)
    requires
        encode_utf8(a) == encode_utf8(b),
    ensures
        a == b,
{
    encode_utf8_decode_utf8(a);
    encode_utf8_decode_utf8(b);
}

/// The boundaries of a text up to a boundary `b` are boundaries of its first `b` bytes.
pub proof fn lemma_boundary_in_prefix(bytes: Seq<u8>, a: int, b: int)
    requires
        valid_utf8(bytes),
        is_char_boundary(bytes, a),
        is_char_boundary(bytes, b),
        0 <= a <= b <= bytes.len(),
    ensures
        valid_utf8(bytes.subrange(0, b)),
        is_char_boundary(bytes.subrange(0, b), a),
{
    valid_utf8_split(bytes, b);
    let front = bytes.subrange(0, b);
    if a == b {
        is_char_boundary_start_end_of_seq(front);
    } else {
        is_char_boundary_iff_not_is_continuation_byte(bytes, a);
        is_char_boundary_iff_not_is_continuation_byte(front, a);
    }
}

/// The part of `s` from byte `a` up to byte `b`.
pub fn slice(s: &str, a: usize, b: usize) -> (r: &str)
    requires
        a <= b <= encode_utf8(s@).len(),
        is_char_boundary(encode_utf8(s@), a as int),
        is_char_boundary(encode_utf8(s@), b as int),
    ensures
        encode_utf8(r@) == encode_utf8(s@).subrange(a as int, b as int),
{
    proof {
        encode_utf8_valid_utf8(s@);
        lemma_boundary_in_prefix(encode_utf8(s@), a as int, b as int);
    }
    let (front, _rest) = s.split_at(b);
    let (_before, part) = front.split_at(a);
    assert(encode_utf8(part@) =~= encode_utf8(s@).subrange(a as int, b as int));
    part
}

/// The white space is that of Unicode: the controls from tab to carriage return, the
/// next-line control, and the space, line and paragraph separators.
pub proof fn law_white_space_characters(c: char)
    ensures
        is_white_space(c) <==> {
            let n = c as u32;
            ||| 0x09 <= n <= 0x0d
            ||| n == 0x20
            ||| n == 0x85
            ||| n == 0xa0
            ||| n == 0x1680
            ||| 0x2000 <= n <= 0x200a
            ||| 0x2028 <= n <= 0x2029
            ||| n == 0x202f
            ||| n == 0x205f
            ||| n == 0x3000
        },
{
}

/// Without its leading white space a text begins where its first other character stands.
proof fn lemma_trimmed_start(s: Seq<char>) -> (a: int)
    ensures
        0 <= a <= s.len(),
        trimmed_start(s) == s.skip(a),
        forall|i: int| 0 <= i < a ==> is_white_space(#[trigger] s[i]),
        a < s.len() ==> !is_white_space(s[a]),
    decreases s.len(),
{
    if s.len() > 0 && is_white_space(s[0]) {
        let rest = s.drop_first();
        let b = lemma_trimmed_start(rest);
        assert(rest.skip(b) =~= s.skip(b + 1));
        assert forall|i: int| 0 <= i < b + 1 implies is_white_space(#[trigger] s[i]) by {
            if i > 0 {
                assert(rest[i - 1] == s[i]);
            }
        }
        b + 1
    } else {
        assert(s.skip(0) =~= s);
        0
    }
}

/// Without its trailing white space a text ends behind its last other character.
proof fn lemma_trimmed_end(s: Seq<char>) -> (b: int)
    ensures
        0 <= b <= s.len(),
        trimmed_end(s) == s.take(b),
        forall|i: int| b <= i < s.len() ==> is_white_space(#[trigger] s[i]),
        b > 0 ==> !is_white_space(s[b - 1]),
    decreases s.len(),
{
    if s.len() > 0 && is_white_space(s.last()) {
        let front = s.drop_last();
        let b = lemma_trimmed_end(front);
        assert(front.take(b) =~= s.take(b));
        assert forall|i: int| b <= i < s.len() implies is_white_space(#[trigger] s[i]) by {
            if i < s.len() - 1 {
                assert(front[i] == s[i]);
            }
        }
        b
    } else {
        assert(s.take(s.len() as int) =~= s);
        s.len() as int
    }
}

/// A trimmed text is a part of the text: outside it there is only white space, and it
/// neither begins nor ends with any.
pub proof fn law_trimmed_is_the_middle(s: Seq<char>) -> (r: (int, int))
    ensures
        0 <= r.0 <= r.1 <= s.len(),
        trimmed(s) == s.subrange(r.0, r.1),
        forall|i: int| 0 <= i < r.0 || r.1 <= i < s.len() ==> is_white_space(#[trigger] s[i]),
        r.0 < r.1 ==> !is_white_space(s[r.0]) && !is_white_space(s[r.1 - 1]),
{
    let a = lemma_trimmed_start(s);
    let t = s.skip(a);
    let b = lemma_trimmed_end(t);
    assert(t.take(b) =~= s.subrange(a, a + b));
    assert forall|i: int| 0 <= i < a || a + b <= i < s.len() implies is_white_space(
        #[trigger] s[i],
    ) by {
        if i >= a + b {
            assert(t[i - a] == s[i]);
        }
    }
    if b > 0 {
        assert(t[b - 1] == s[a + b - 1]);
    }
    (a, a + b)
}

/// A text is blank where every character of it is white space, and only there.
pub proof fn law_blank_is_all_white_space(s: Seq<char>)
    ensures
        is_blank(s) <==> forall|i: int| 0 <= i < s.len() ==> is_white_space(#[trigger] s[i]),
{
    let (a, b) = law_trimmed_is_the_middle(s);
    if a < b {
        assert(!is_white_space(s[a]));
    }
}

/// A prefix is taken off exactly where putting it back gives the text.
pub proof fn law_prefix_is_taken_off(s: Seq<char>, p: Seq<char>, t: Seq<char>)
    ensures
        without_prefix(s, p) == Some(t) <==> s == p + t,
        (forall|u: Seq<char>| s != #[trigger] (p + u)) ==> without_prefix(s, p) is None,
{
    if s == p + t {
        assert(s.subrange(0, p.len() as int) =~= p);
        assert(s.skip(p.len() as int) =~= t);
    }
    if p.is_prefix_of(s) {
        assert(s =~= p + s.skip(p.len() as int));
    }
}

/// A text stands in every text that has it between two others, wherever that is.
pub proof fn law_substring_stands_between(a: Seq<char>, p: Seq<char>, b: Seq<char>)
    ensures
        has_substring(a + p + b, p),
{
    let s = a + p + b;
    assert(s.subrange(a.len() as int, (a.len() + p.len()) as int) =~= p);
    assert(occurs_at(s, p, a.len() as int));
}

/// A text that stands in another one has some text before it and some after it there.
pub proof fn law_substring_is_found(s: Seq<char>, p: Seq<char>) -> (r: (Seq<char>, Seq<char>))
    requires
        has_substring(s, p),
    ensures
        s == r.0 + p + r.1,
{
    let at = choose|at: int| #[trigger] occurs_at(s, p, at);
    let r = (s.take(at), s.skip(at + p.len()));
    assert(s =~= r.0 + p + r.1) by {
        assert(s.subrange(at, at + p.len()) == p);
        assert forall|i: int| 0 <= i < s.len() implies s[i] == (r.0 + p + r.1)[i] by {
            if at <= i < at + p.len() {
                assert(s.subrange(at, at + p.len())[i - at] == s[i]);
            }
        }
    }
    r
}

/// There is always a part, if an empty one.
proof fn lemma_comma_parts_some(s: Seq<char>)
    ensures
        comma_parts(s).len() > 0,
    decreases s.len(),
{
    if s.len() > 0 {
        lemma_comma_parts_some(s.drop_last());
    }
}

/// A comma ends a part.
proof fn lemma_comma_parts(a: Seq<char>, b: Seq<char>)
    ensures
        comma_parts(a + seq![','] + b) == comma_parts(a) + comma_parts(b),
    decreases b.len(),
{
    let s = a + seq![','] + b;
    lemma_comma_parts_some(b);
    if b.len() == 0 {
        assert(s.drop_last() =~= a);
        assert(comma_parts(s) =~= comma_parts(a) + comma_parts(b));
    } else {
        let front = a + seq![','] + b.drop_last();
        assert(s.drop_last() =~= front);
        lemma_comma_parts(a, b.drop_last());
        lemma_comma_parts_some(b.drop_last());
        assert(comma_parts(s) =~= comma_parts(a) + comma_parts(b));
    }
}

/// A text without a comma is one part.
proof fn lemma_one_part(s: Seq<char>)
    requires
        !s.contains(','),
    ensures
        comma_parts(s) == seq![s],
    decreases s.len(),
{
    if s.len() > 0 {
        let front = s.drop_last();
        assert(!front.contains(',')) by {
            if front.contains(',') {
                let i = choose|i: int| 0 <= i < front.len() && front[i] == ',';
                assert(s[i] == ',');
            }
        }
        lemma_one_part(front);
        assert(s.contains(s.last()));
        assert(front.push(s.last()) =~= s);
        assert(comma_parts(s) =~= seq![s]);
    } else {
        assert(s =~= Seq::empty());
        assert(comma_parts(s) =~= seq![s]);
    }
}

/// The entries among parts are those among the first ones and those among the others.
proof fn lemma_trimmed_non_empty(x: Seq<Seq<char>>, y: Seq<Seq<char>>)
    ensures
        trimmed_non_empty(x + y) == trimmed_non_empty(x) + trimmed_non_empty(y),
    decreases y.len(),
{
    if y.len() == 0 {
        assert(x + y =~= x);
        assert(trimmed_non_empty(x) + trimmed_non_empty(y) =~= trimmed_non_empty(x));
    } else {
        assert((x + y).drop_last() =~= x + y.drop_last());
        lemma_trimmed_non_empty(x, y.drop_last());
        assert(trimmed_non_empty(x + y) =~= trimmed_non_empty(x) + trimmed_non_empty(y));
    }
}

/// A comma parts a list: its entries are those before the comma, then those after it.
pub proof fn law_comma_parts_a_list(a: Seq<char>, b: Seq<char>)
    ensures
        list_entries(a + seq![','] + b) == list_entries(a) + list_entries(b),
{
    lemma_comma_parts(a, b);
    lemma_trimmed_non_empty(comma_parts(a), comma_parts(b));
}

/// A list without a comma has one entry, which is the text without the white space around
/// it; it has none where there is nothing else.
pub proof fn law_list_without_comma(s: Seq<char>) -> (r: (int, int))
    requires
        !s.contains(','),
    ensures
        0 <= r.0 <= r.1 <= s.len(),
        forall|i: int| 0 <= i < r.0 || r.1 <= i < s.len() ==> is_white_space(#[trigger] s[i]),
        r.0 < r.1 ==> !is_white_space(s[r.0]) && !is_white_space(s[r.1 - 1]),
        list_entries(s) == if r.0 < r.1 {
            seq![s.subrange(r.0, r.1)]
        } else {
            Seq::empty()
        },
{
    let (a, b) = law_trimmed_is_the_middle(s);
    lemma_one_part(s);
    let parts = seq![s];
    assert(parts.drop_last() =~= Seq::empty());
    assert(trimmed_non_empty(parts.drop_last()) =~= Seq::empty());
    assert(list_entries(s) =~= if a < b {
        seq![s.subrange(a, b)]
    } else {
        Seq::empty()
    });
    (a, b)
}

/// Digits behind others make the number before them greater by as many powers of ten.
pub proof fn law_digits_count_by_tens(a: Seq<char>, b: Seq<char>)
    requires
        forall|i: int| 0 <= i < b.len() ==> '0' <= #[trigger] b[i] <= '9',
    ensures
        decimal_value(a + b) == decimal_value(a) * vstd::arithmetic::power::pow(
            10,
            b.len(),
        ) + decimal_value(b),
    decreases b.len(),
{
    reveal(vstd::arithmetic::power::pow);
    if b.len() == 0 {
        assert(a + b =~= a);
    } else {
        let front = b.drop_last();
        assert((a + b).drop_last() =~= a + front);
        assert forall|i: int| 0 <= i < front.len() implies '0' <= #[trigger] front[i] <= '9' by {
            assert(front[i] == b[i]);
        }
        law_digits_count_by_tens(a, front);
        let p = vstd::arithmetic::power::pow(10, front.len());
        let x = decimal_value(a) as int;
        assert((x * p) * 10 == x * (10 * p)) by (nonlinear_arith);
        assert('0' <= b[b.len() - 1] <= '9');
    }
}

/// One digit is worth what it says.
pub proof fn law_digit_is_its_value(c: char)
    requires
        '0' <= c <= '9',
    ensures
        decimal_value(seq![c]) == c as u32 - 48,
{
    assert(seq![c].drop_last() =~= Seq::empty());
    assert(decimal_value(seq![c].drop_last()) == 0);
}

/// A number is read where a text is made of digits, with or without one plus sign before
/// them, and is at most 65535; of every other text none is.
pub proof fn law_number_is_read(s: Seq<char>)
    ensures
        s.len() > 0 && (forall|i: int| 0 <= i < s.len() ==> '0' <= #[trigger] s[i] <= '9') ==> {
            &&& decimal_u16(s) == if decimal_value(s) <= 65535 {
                Some(decimal_value(s))
            } else {
                None
            }
            &&& decimal_u16(seq!['+'] + s) == decimal_u16(s)
        },
        s.len() == 0 ==> decimal_u16(s) is None && decimal_u16(seq!['+'] + s) is None,
        (exists|i: int| 0 < i < s.len() && !('0' <= #[trigger] s[i] <= '9')) ==> decimal_u16(
            s,
        ) is None,
        s.len() > 0 && s[0] != '+' && !('0' <= s[0] <= '9') ==> decimal_u16(s) is None,
{
    assert((seq!['+'] + s).drop_first() =~= s);
    if s.len() > 0 {
        let rest = s.drop_first();
        if exists|i: int| 0 < i < s.len() && !('0' <= #[trigger] s[i] <= '9') {
            let i = choose|i: int| 0 < i < s.len() && !('0' <= #[trigger] s[i] <= '9');
            assert(rest[i - 1] == s[i]);
        }
        assert(s[0] == s[0]);
    }
}

/// A number is written in digits, without a zero before them.
pub proof fn law_number_has_no_leading_zero(n: nat)
    ensures
        decimal_digits(n).len() > 0,
        forall|i: int| 0 <= i < decimal_digits(n).len() ==> '0' <= #[trigger] decimal_digits(n)[i] <= '9',
        decimal_value(decimal_digits(n)) == n,
        n > 0 ==> decimal_digits(n)[0] != '0',
    decreases n,
{
    lemma_decimal_digits(n);
    if n >= 10 {
        law_number_has_no_leading_zero(n / 10);
        assert(decimal_digits(n)[0] == decimal_digits(n / 10)[0]);
    }
}

} // verus!
