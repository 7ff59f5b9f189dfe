//! Character-level helpers that the formats of this crate are built on.

use vstd::prelude::*;

verus! {

/// Appends a character to a string (`String::push`).
#[verifier::external_body]
pub(crate) fn push_char(s: &mut String, c: char)
    ensures
        final(s)@ == old(s)@.push(c),
{
    s.push(c)
}

/// The characters of `s`.
pub fn chars_of(s: &str) -> (r: Vec<char>)
    ensures
        r@ == s@,
{
    broadcast use vstd::string::group_string_axioms;

    let mut r: Vec<char> = Vec::new();
    for c in it: s.chars()
        invariant
            r@ == it.seq().take(it.index() as int),
    {
        r.push(c);
    }
    r
}

/// A string made of the given characters.
pub fn string_of(chars: &[char]) -> (r: String)
    ensures
        r@ == chars@,
{
    let mut r = String::new();
    let mut i: usize = 0;
    while i < chars.len()
        invariant
            i <= chars@.len(),
            r@ == chars@.take(i as int),
        decreases chars@.len() - i,
    {
        push_char(&mut r, chars[i]);
        i += 1;
        assert(r@ =~= chars@.take(i as int));
    }
    assert(chars@.take(i as int) =~= chars@);
    r
}

/// The character of a decimal digit.
pub open spec fn digit_char(d: nat) -> char {
    if d == 0 { '0' } else if d == 1 { '1' } else if d == 2 { '2' } else if d == 3 { '3' }
    else if d == 4 { '4' } else if d == 5 { '5' } else if d == 6 { '6' } else if d == 7 { '7' }
    else if d == 8 { '8' } else { '9' }
}

/// Whether `c` is an ASCII decimal digit.
pub open spec fn is_digit(c: char) -> bool {
    '0' <= c && c <= '9'
}

/// The value of an ASCII decimal digit.
pub open spec fn digit_value(c: char) -> nat {
    (c as int - '0' as int) as nat
}

/// The decimal representation of a natural number, without leading zeros.
pub open spec fn decimal(n: nat) -> Seq<char>
    decreases n,
{
    if n < 10 {
        seq![digit_char(n)]
    } else {
        decimal(n / 10).push(digit_char(n % 10))
    }
}

/// Whether every character of `s` is an ASCII decimal digit.
pub open spec fn all_digits(s: Seq<char>) -> bool {
    forall|i: int| 0 <= i < s.len() ==> is_digit(#[trigger] s[i])
}

/// The value of a sequence of decimal digits.
pub open spec fn digits_value(s: Seq<char>) -> nat
    decreases s.len(),
{
    if s.len() == 0 {
        0
    } else {
        digits_value(s.drop_last()) * 10 + digit_value(s.last())
    }
}

/// What `u64::from_str` gives for `s`: an optional `+`, then at least one digit, and a value
/// that fits.
pub open spec fn parse_u64_spec(s: Seq<char>) -> Option<u64> {
    let digits = if s.len() > 0 && s[0] == '+' { s.skip(1) } else { s };
    if digits.len() > 0 && all_digits(digits) && digits_value(digits) <= u64::MAX {
        Some(digits_value(digits) as u64)
    } else {
        None
    }
}

/// What `i128::from_str` gives for `s`: an optional sign, then at least one digit, and a value
/// that fits.
pub open spec fn parse_i128_spec(s: Seq<char>) -> Option<i128> {
    let negative = s.len() > 0 && s[0] == '-';
    let digits = if s.len() > 0 && (s[0] == '+' || s[0] == '-') { s.skip(1) } else { s };
    if digits.len() == 0 || !all_digits(digits) {
        None
    } else if negative {
        if digits_value(digits) <= 0x8000_0000_0000_0000_0000_0000_0000_0000 {
            Some((0 - digits_value(digits)) as i128)
        } else {
            None
        }
    } else if digits_value(digits) <= i128::MAX {
        Some(digits_value(digits) as i128)
    } else {
        None
    }
}

/// The decimal representation of a signed number.
pub open spec fn signed_decimal(v: int) -> Seq<char> {
    if v < 0 {
        seq!['-'] + decimal((0 - v) as nat)
    } else {
        decimal(v as nat)
    }
}

proof fn lemma_digit_char(d: nat)
    requires
        d < 10,
    ensures
        is_digit(digit_char(d)),
        digit_value(digit_char(d)) == d,
{
}

/// The decimal representation is made of digits, does not start with a zero unless it is
/// "0", and reads back as the same number.
pub proof fn lemma_decimal(n: nat)
    ensures
        decimal(n).len() > 0,
        n < 10 <==> decimal(n).len() == 1,
        all_digits(decimal(n)),
        digits_value(decimal(n)) == n,
        decimal(n).len() > 1 ==> decimal(n)[0] != '0',
        decimal(n)[0] != '+' && decimal(n)[0] != '-',
    decreases n,
{
    if n < 10 {
        lemma_digit_char(n);
        assert(decimal(n).drop_last() =~= Seq::<char>::empty());
        assert(digits_value(Seq::<char>::empty()) == 0);
    } else {
        let q = n / 10;
        let r = n % 10;
        lemma_decimal(q);
        lemma_digit_char(r);
        let d = decimal(n);
        assert(d =~= decimal(q).push(digit_char(r)));
        assert(d.drop_last() =~= decimal(q));
        assert(d.last() == digit_char(r));
        assert(digits_value(d) == digits_value(decimal(q)) * 10 + digit_value(digit_char(r)));
        assert(q * 10 + r == n);
        assert forall|i: int| 0 <= i < d.len() implies is_digit(#[trigger] d[i]) by {
            if i < d.len() - 1 {
                assert(d[i] == decimal(q)[i]);
            }
        }
        assert(d[0] == decimal(q)[0]);
        if q < 10 {
            assert(decimal(q) =~= seq![digit_char(q)]);
            assert(q >= 1);
        }
    }
}

/// A prefix of a digit sequence is worth no more than the whole sequence.
pub proof fn lemma_digits_value_prefix(s: Seq<char>, i: int)
    requires
        0 <= i <= s.len(),
    ensures
        digits_value(s.take(i)) <= digits_value(s),
    decreases s.len(),
{
    if i < s.len() {
        lemma_digits_value_prefix(s.drop_last(), i);
        assert(s.drop_last().take(i) =~= s.take(i));
    } else {
        assert(s.take(i) =~= s);
    }
}

/// Reading decimal digits back gives the number they were written from.
pub proof fn lemma_parse_decimal(n: nat)
    ensures
        n <= u64::MAX ==> parse_u64_spec(decimal(n)) == Some(n as u64),
{
    lemma_decimal(n);
    assert(decimal(n).len() > 0);
}

/// Reading a signed decimal back gives the number it was written from.
pub proof fn lemma_parse_signed_decimal(v: i128)
    ensures
        parse_i128_spec(signed_decimal(v as int)) == Some(v),
{
    if v < 0 {
        let m = (0 - v) as nat;
        lemma_decimal(m);
        let s = signed_decimal(v as int);
        assert(s.skip(1) =~= decimal(m));
        assert(s[0] == '-');
    } else {
        lemma_decimal(v as nat);
    }
}

fn digit_to_char(d: u8) -> (c: char)
    requires
        d < 10,
    ensures
        c == digit_char(d as nat),
{
    if d == 0 { '0' } else if d == 1 { '1' } else if d == 2 { '2' } else if d == 3 { '3' }
    else if d == 4 { '4' } else if d == 5 { '5' } else if d == 6 { '6' } else if d == 7 { '7' }
    else if d == 8 { '8' } else { '9' }
}

/// Appends the decimal representation of `n` to `out`.
pub fn push_decimal(n: u128, out: &mut Vec<char>)
    ensures
        final(out)@ == old(out)@ + decimal(n as nat),
    decreases n,
{
    if n >= 10 {
        push_decimal(n / 10, out);
    }
    out.push(digit_to_char((n % 10) as u8));
    if n < 10 {
        assert(decimal(n as nat) =~= seq![digit_char(n as nat)]);
    }
}

/// Appends the decimal representation of a signed number to `out`.
pub fn push_signed_decimal(v: i128, out: &mut Vec<char>)
    ensures
        final(out)@ == old(out)@ + signed_decimal(v as int),
{
    if v < 0 {
        out.push('-');
        let magnitude: u128 = ((-(v + 1)) as u128) + 1;
        push_decimal(magnitude, out);
        assert(final(out)@ =~= old(out)@ + signed_decimal(v as int));
    } else {
        push_decimal(v as u128, out);
    }
}

/// The decimal representation of `n` as a string.
pub fn u64_to_string(n: u64) -> (r: String)
    ensures
        r@ == decimal(n as nat),
{
    let mut chars: Vec<char> = Vec::new();
    push_decimal(n as u128, &mut chars);
    assert(chars@ =~= decimal(n as nat));
    string_of(chars.as_slice())
}

fn char_digit(c: char) -> (d: Option<u8>)
    ensures
        d is Some <==> is_digit(c),
        d matches Some(v) ==> v as nat == digit_value(c) && v < 10,
{
    if '0' <= c && c <= '9' {
        Some(((c as u32) - ('0' as u32)) as u8)
    } else {
        None
    }
}

/// The value of the digits `s[from..]`, or `None` if one of them is not a digit or the value
/// exceeds `limit`.
fn parse_digits(s: &[char], from: usize, limit: u128) -> (r: Option<u128>)
    requires
        from <= s@.len(),
        limit >= 9,
    ensures
        r is Some <==> (all_digits(s@.skip(from as int)) && digits_value(s@.skip(from as int))
            <= limit),
        r matches Some(v) ==> v == digits_value(s@.skip(from as int)),
{
    let ghost digits = s@.skip(from as int);
    let mut value: u128 = 0;
    let mut i: usize = from;
    while i < s.len()
        invariant
            from <= i <= s@.len(),
            digits == s@.skip(from as int),
            all_digits(digits.take(i - from)),
            value == digits_value(digits.take(i - from)),
            value <= limit,
            limit >= 9,
        decreases s@.len() - i,
    {
        let ghost prefix = digits.take(i - from);
        let ghost next = digits.take(i - from + 1);
        assert(next.drop_last() =~= prefix);
        assert(next.last() == s@[i as int]);
        match char_digit(s[i]) {
            None => {
                assert(!is_digit(digits[i - from]));
                return None;
            },
            Some(d) => {
                if value > (limit - d as u128) / 10 {
                    assert(digits_value(next) > limit) by (nonlinear_arith)
                        requires
                            value > (limit - d as u128) / 10,
                            digits_value(next) == value * 10 + d,
                    {
                    }
                    proof {
                        lemma_digits_value_prefix(digits, i - from + 1);
                    }
                    return None;
                }
                assert(value * 10 + d <= limit) by (nonlinear_arith)
                    requires
                        value <= (limit - d as u128) / 10,
                        d <= limit,
                {
                }
                value = value * 10 + d as u128;
                i += 1;
                assert forall|k: int| 0 <= k < next.len() implies is_digit(#[trigger] next[k]) by {
                    if k < prefix.len() {
                        assert(next[k] == prefix[k]);
                    }
                }
            },
        }
    }
    assert(digits.take(i - from) =~= digits);
    Some(value)
}

/// Parses an unsigned number the way `u64::from_str` does.
pub fn parse_u64(s: &[char]) -> (r: Option<u64>)
    ensures
        r == parse_u64_spec(s@),
{
    let from: usize = if s.len() > 0 && s[0] == '+' { 1 } else { 0 };
    assert(from == 0 ==> s@.skip(0) =~= s@);
    if from >= s.len() {
        assert(s@.skip(from as int).len() == 0);
        return None;
    }
    match parse_digits(s, from, 0xffff_ffff_ffff_ffff) {
        Some(v) => Some(v as u64),
        None => None,
    }
}

/// Parses a signed number the way `i128::from_str` does.
pub fn parse_i128(s: &[char]) -> (r: Option<i128>)
    ensures
        r == parse_i128_spec(s@),
{
    let negative = s.len() > 0 && s[0] == '-';
    let from: usize = if s.len() > 0 && (s[0] == '+' || s[0] == '-') { 1 } else { 0 };
    assert(from == 0 ==> s@.skip(0) =~= s@);
    if from >= s.len() {
        assert(s@.skip(from as int).len() == 0);
        return None;
    }
    if negative {
        match parse_digits(s, from, 0x8000_0000_0000_0000_0000_0000_0000_0000) {
            Some(v) => {
                if v == 0x8000_0000_0000_0000_0000_0000_0000_0000 {
                    Some(-170141183460469231731687303715884105727i128 - 1)
                } else {
                    Some(-(v as i128))
                }
            },
            None => None,
        }
    } else {
        match parse_digits(s, from, 0x7fff_ffff_ffff_ffff_ffff_ffff_ffff_ffff) {
            Some(v) => Some(v as i128),
            None => None,
        }
    }
}

/// `format!("{:?}", s)`: the quoted and escaped form in which strings show up in messages.
#[verifier::external_body]
pub(crate) fn debug_str(s: &str) -> (r: String)
    ensures
        r@ == debug_quoted(s@),
{
    format!("{:?}", s)
}

/// The `Debug` form of a string, as `std` writes it.
pub uninterp spec fn debug_quoted(s: Seq<char>) -> Seq<char>;

/// The index of the first `c` in `s`, or the length of `s` if there is none.
pub open spec fn first_index_of(s: Seq<char>, c: char) -> int
    decreases s.len(),
{
    if s.len() == 0 {
        0
    } else if s[0] == c {
        0
    } else {
        1 + first_index_of(s.drop_first(), c)
    }
}

/// What `str::splitn(n, c)` yields: at most `n` parts, the last one holding the rest.
pub open spec fn splitn_spec(s: Seq<char>, c: char, n: nat) -> Seq<Seq<char>>
    decreases s.len(),
{
    let i = first_index_of(s, c);
    if n <= 1 || i >= s.len() {
        seq![s]
    } else {
        proof {
            lemma_first_index_of(s, c);
        }
        seq![s.take(i)] + splitn_spec(s.skip(i + 1), c, (n - 1) as nat)
    }
}

/// What `str::split(c)` yields.
pub open spec fn split_spec(s: Seq<char>, c: char) -> Seq<Seq<char>>
    decreases s.len(),
{
    let i = first_index_of(s, c);
    if i >= s.len() {
        seq![s]
    } else {
        proof {
            lemma_first_index_of(s, c);
        }
        seq![s.take(i)] + split_spec(s.skip(i + 1), c)
    }
}

/// The views of some character vectors.
pub open spec fn views(v: Seq<Vec<char>>) -> Seq<Seq<char>> {
    v.map_values(|x: Vec<char>| x@)
}

pub proof fn lemma_first_index_of(s: Seq<char>, c: char)
    ensures
        0 <= first_index_of(s, c) <= s.len(),
        first_index_of(s, c) < s.len() ==> s[first_index_of(s, c)] == c,
        forall|j: int| 0 <= j < first_index_of(s, c) ==> s[j] != c,
    decreases s.len(),
{
    if s.len() > 0 && s[0] != c {
        lemma_first_index_of(s.drop_first(), c);
        assert forall|j: int| 0 <= j < first_index_of(s, c) implies s[j] != c by {
            if j > 0 {
                assert(s[j] == s.drop_first()[j - 1]);
            }
        }
    }
}

/// The index of the first `c` in `s[from..]`, or the length of `s`.
pub fn find_char(s: &[char], from: usize, c: char) -> (r: usize)
    requires
        from <= s@.len(),
    ensures
        r == from + first_index_of(s@.skip(from as int), c),
        from <= r <= s@.len(),
        r < s@.len() ==> s@[r as int] == c,
        forall|j: int| from <= j < r ==> s@[j] != c,
{
    let mut i = from;
    while i < s.len()
        invariant
            from <= i <= s@.len(),
            forall|j: int| from <= j < i ==> s@[j] != c,
        decreases s@.len() - i,
    {
        if s[i] == c {
            proof {
                lemma_first_index_at(s@, c, from as int, i as int);
            }
            return i;
        }
        i += 1;
    }
    proof {
        lemma_first_index_at(s@, c, from as int, i as int);
    }
    i
}

/// A copy of `s[from..to]`.
pub fn sub_vec(s: &[char], from: usize, to: usize) -> (r: Vec<char>)
    requires
        from <= to <= s@.len(),
    ensures
        r@ == s@.subrange(from as int, to as int),
{
    let mut r: Vec<char> = Vec::new();
    let mut i = from;
    while i < to
        invariant
            from <= i <= to <= s@.len(),
            r@ == s@.subrange(from as int, i as int),
        decreases to - i,
    {
        r.push(s[i]);
        i += 1;
        assert(r@ =~= s@.subrange(from as int, i as int));
    }
    r
}

proof fn lemma_first_index_at(s: Seq<char>, c: char, from: int, r: int)
    requires
        0 <= from <= r <= s.len(),
        r < s.len() ==> s[r] == c,
        forall|j: int| from <= j < r ==> s[j] != c,
    ensures
        r == from + first_index_of(s.skip(from), c),
{
    let t = s.skip(from);
    lemma_first_index_of(t, c);
    let k = first_index_of(t, c);
    if r - from < k {
        assert(t[r - from] == s[r]);
    } else if r - from > k {
        assert(t[k] == s[from + k]);
    }
}

proof fn return_last_part_proof(rest: Seq<char>, c: char, n: nat)
    requires
        n <= 1 || first_index_of(rest, c) >= rest.len(),
    ensures
        splitn_spec(rest, c, n) == seq![rest],
{
}

/// `str::splitn(n, c)` on characters.
pub fn splitn(s: &[char], c: char, n: usize) -> (r: Vec<Vec<char>>)
    requires
        n >= 1,
    ensures
        views(r@) == splitn_spec(s@, c, n as nat),
{
    let mut parts: Vec<Vec<char>> = Vec::new();
    let mut start: usize = 0;
    assert(s@.skip(0) =~= s@);
    loop
        invariant
            start <= s@.len(),
            parts@.len() < n,
            views(parts@) + splitn_spec(s@.skip(start as int), c, (n - parts@.len()) as nat)
                == splitn_spec(s@, c, n as nat),
        ensures
            start <= s@.len(),
            views(parts@) + seq![s@.skip(start as int)] == splitn_spec(s@, c, n as nat),
        decreases s@.len() - start,
    {
        let ghost rest = s@.skip(start as int);
        if parts.len() + 1 >= n {
            proof {
                return_last_part_proof(rest, c, (n - parts@.len()) as nat);
            }
            break;
        }
        let i = find_char(s, start, c);
        if i >= s.len() {
            proof {
                return_last_part_proof(rest, c, (n - parts@.len()) as nat);
            }
            break;
        }
        let part = sub_vec(s, start, i);
        proof {
            assert(rest.take(i - start) =~= part@);
            assert(rest.skip(i - start + 1) =~= s@.skip(i + 1));
            assert(views(parts@.push(part)) =~= views(parts@).push(part@));
            assert(views(parts@).push(part@) + splitn_spec(s@.skip(i + 1), c, (n - parts@.len() - 1) as nat)
                =~= views(parts@) + (seq![part@] + splitn_spec(s@.skip(i + 1), c, (n - parts@.len() - 1) as nat)));
        }
        parts.push(part);
        start = i + 1;
    }
    let last = sub_vec(s, start, s.len());
    proof {
        assert(last@ =~= s@.skip(start as int));
        assert(views(parts@.push(last)) =~= views(parts@).push(last@));
        assert(views(parts@) + seq![last@] =~= views(parts@).push(last@));
    }
    parts.push(last);
    parts
}

/// `str::split(c)` on characters.
pub fn split(s: &[char], c: char) -> (r: Vec<Vec<char>>)
    ensures
        views(r@) == split_spec(s@, c),
{
    let mut parts: Vec<Vec<char>> = Vec::new();
    let mut start: usize = 0;
    assert(s@.skip(0) =~= s@);
    loop
        invariant
            start <= s@.len(),
            views(parts@) + split_spec(s@.skip(start as int), c) == split_spec(s@, c),
        ensures
            start <= s@.len(),
            views(parts@) + seq![s@.skip(start as int)] == split_spec(s@, c),
        decreases s@.len() - start,
    {
        let ghost rest = s@.skip(start as int);
        let i = find_char(s, start, c);
        if i >= s.len() {
            break;
        }
        let part = sub_vec(s, start, i);
        proof {
            assert(rest.take(i - start) =~= part@);
            assert(rest.skip(i - start + 1) =~= s@.skip(i + 1));
            assert(views(parts@.push(part)) =~= views(parts@).push(part@));
            assert(views(parts@).push(part@) + split_spec(s@.skip(i + 1), c)
                =~= views(parts@) + (seq![part@] + split_spec(s@.skip(i + 1), c)));
        }
        parts.push(part);
        start = i + 1;
    }
    let last = sub_vec(s, start, s.len());
    proof {
        assert(last@ =~= s@.skip(start as int));
        assert(views(parts@.push(last)) =~= views(parts@).push(last@));
        assert(views(parts@) + seq![last@] =~= views(parts@).push(last@));
    }
    parts.push(last);
    parts
}

/// `s` without one trailing carriage return.
pub open spec fn strip_cr(s: Seq<char>) -> Seq<char> {
    if s.len() > 0 && s.last() == '\r' {
        s.drop_last()
    } else {
        s
    }
}

/// What `str::lines` yields: the pieces between line feeds, a carriage return before a line
/// feed removed, and no empty piece after a final line feed.
pub open spec fn lines_spec(s: Seq<char>) -> Seq<Seq<char>> {
    let parts = split_spec(s, '\n');
    let body = parts.take(parts.len() - 1).map_values(|p: Seq<char>| strip_cr(p));
    if parts.last().len() == 0 {
        body
    } else {
        body.push(parts.last())
    }
}

/// `split_spec` always yields at least one piece.
pub proof fn lemma_split_nonempty(s: Seq<char>, c: char)
    ensures
        split_spec(s, c).len() >= 1,
    decreases s.len(),
{
    lemma_first_index_of(s, c);
    let i = first_index_of(s, c);
    if i < s.len() {
        lemma_split_nonempty(s.skip(i + 1), c);
    }
}

/// `str::lines` on characters.
pub fn lines(s: &[char]) -> (r: Vec<Vec<char>>)
    ensures
        views(r@) == lines_spec(s@),
{
    let parts = split(s, '\n');
    proof {
        lemma_split_nonempty(s@, '\n');
    }
    let ghost pv = split_spec(s@, '\n');
    let n = parts.len();
    let mut r: Vec<Vec<char>> = Vec::new();
    let mut i: usize = 0;
    while i + 1 < n
        invariant
            n == parts@.len(),
            n >= 1,
            views(parts@) == pv,
            i <= n - 1,
            views(r@) == pv.take(i as int).map_values(|p: Seq<char>| strip_cr(p)),
        decreases n - i,
    {
        let part = &parts[i];
        let mut line = sub_vec(part.as_slice(), 0, part.len());
        proof {
            assert(line@ =~= part@);
            assert(views(parts@)[i as int] == parts@[i as int]@);
        }
        if line.len() > 0 && line[line.len() - 1] == '\r' {
            line.pop();
        }
        assert(line@ =~= strip_cr(pv[i as int]));
        let ghost before = r@;
        r.push(line);
        i += 1;
        proof {
            assert(views(r@) =~= views(before).push(line@));
            assert(views(r@) =~= pv.take(i as int).map_values(|p: Seq<char>| strip_cr(p)));
        }
    }
    let last = &parts[n - 1];
    let ghost old_r = r;
    proof {
        assert(views(parts@)[n - 1] == parts@[n - 1]@);
    }
    if last.len() > 0 {
        let line = sub_vec(last.as_slice(), 0, last.len());
        assert(line@ =~= last@);
        r.push(line);
        proof {
            assert(views(r@) =~= views(old_r@).push(line@));
        }
    }
    r
}

/// Whether `c` does not occur in `s`.
pub open spec fn lacks(s: Seq<char>, c: char) -> bool {
    forall|i: int| 0 <= i < s.len() ==> s[i] != c
}

/// In `a`, `c`, `b` where `a` lacks `c`, the first `c` is the one after `a`.
pub proof fn lemma_first_index_after(a: Seq<char>, c: char, b: Seq<char>)
    requires
        lacks(a, c),
    ensures
        first_index_of(a + seq![c] + b, c) == a.len(),
{
    let s = a + seq![c] + b;
    lemma_first_index_at(s, c, 0, a.len() as int);
    assert(s.skip(0) =~= s);
}

/// Without `c`, the first `c` is at the end.
pub proof fn lemma_first_index_missing(a: Seq<char>, c: char)
    requires
        lacks(a, c),
    ensures
        first_index_of(a, c) == a.len(),
{
    lemma_first_index_at(a, c, 0, a.len() as int);
    assert(a.skip(0) =~= a);
}

/// Splitting `a`, `c`, `b` where `a` lacks `c` gives `a` and then the pieces of `b`.
pub proof fn lemma_split_after(a: Seq<char>, c: char, b: Seq<char>)
    requires
        lacks(a, c),
    ensures
        split_spec(a + seq![c] + b, c) == seq![a] + split_spec(b, c),
{
    let s = a + seq![c] + b;
    lemma_first_index_after(a, c, b);
    assert(s.take(a.len() as int) =~= a);
    assert(s.skip(a.len() as int + 1) =~= b);
}

/// `splitn` with room for at least two pieces, on `a`, `c`, `b` where `a` lacks `c`.
pub proof fn lemma_splitn_after(a: Seq<char>, c: char, b: Seq<char>, n: nat)
    requires
        lacks(a, c),
        n >= 2,
    ensures
        splitn_spec(a + seq![c] + b, c, n) == seq![a] + splitn_spec(b, c, (n - 1) as nat),
{
    let s = a + seq![c] + b;
    lemma_first_index_after(a, c, b);
    assert(s.take(a.len() as int) =~= a);
    assert(s.skip(a.len() as int + 1) =~= b);
}

/// Splitting something without `c` gives it whole.
pub proof fn lemma_split_whole(a: Seq<char>, c: char, n: nat)
    requires
        lacks(a, c),
    ensures
        split_spec(a, c) == seq![a],
        splitn_spec(a, c, n) == seq![a],
{
    lemma_first_index_missing(a, c);
}

/// Decimal representations hold no spaces, colons or line feeds.
pub proof fn lemma_decimal_lacks(n: nat)
    ensures
        lacks(decimal(n), ' '),
        lacks(decimal(n), ':'),
        lacks(decimal(n), '\n'),
{
    lemma_decimal(n);
    assert forall|i: int| 0 <= i < decimal(n).len() implies decimal(n)[i] != ' ' && decimal(n)[i] != ':' && decimal(n)[i] != '\n' by {
        assert(is_digit(decimal(n)[i]));
    }
}

/// Signed decimal representations hold no spaces, colons or line feeds.
pub proof fn lemma_signed_decimal_lacks(v: int)
    ensures
        lacks(signed_decimal(v), ' '),
        lacks(signed_decimal(v), ':'),
        lacks(signed_decimal(v), '\n'),
{
    if v < 0 {
        let m = (0 - v) as nat;
        lemma_decimal_lacks(m);
        let s = signed_decimal(v);
        assert forall|i: int| 0 <= i < s.len() implies s[i] != ' ' && s[i] != ':' && s[i] != '\n' by {
            if i > 0 {
                assert(s[i] == decimal(m)[i - 1]);
            }
        }
    } else {
        lemma_decimal_lacks(v as nat);
    }
}

/// `splitn` yields between one and `n` pieces.
pub proof fn lemma_splitn_len(s: Seq<char>, c: char, n: nat)
    requires
        n >= 1,
    ensures
        1 <= splitn_spec(s, c, n).len() <= n,
    decreases s.len(),
{
    lemma_first_index_of(s, c);
    let i = first_index_of(s, c);
    if n > 1 && i < s.len() {
        lemma_splitn_len(s.skip(i + 1), c, (n - 1) as nat);
    }
}

/// The order of strings (`Ord for str`): lexicographic by characters, a prefix first.
pub open spec fn chars_le(a: Seq<char>, b: Seq<char>) -> bool
    decreases a.len(),
{
    if a.len() == 0 {
        true
    } else if b.len() == 0 {
        false
    } else if a[0] != b[0] {
        a[0] < b[0]
    } else {
        chars_le(a.drop_first(), b.drop_first())
    }
}

/// The string order is total.
pub proof fn lemma_chars_le_total(a: Seq<char>, b: Seq<char>)
    ensures
        chars_le(a, b) || chars_le(b, a),
    decreases a.len(),
{
    if a.len() > 0 && b.len() > 0 && a[0] == b[0] {
        lemma_chars_le_total(a.drop_first(), b.drop_first());
    }
}

/// The string order is antisymmetric.
pub proof fn lemma_chars_le_antisymmetric(a: Seq<char>, b: Seq<char>)
    requires
        chars_le(a, b),
        chars_le(b, a),
    ensures
        a == b,
    decreases a.len(),
{
    if a.len() > 0 && b.len() > 0 {
        lemma_chars_le_antisymmetric(a.drop_first(), b.drop_first());
        assert(a =~= seq![a[0]] + a.drop_first());
        assert(b =~= seq![b[0]] + b.drop_first());
    } else {
        assert(a.len() == 0 && b.len() == 0);
        assert(a =~= b);
    }
}

/// The string order is transitive.
pub proof fn lemma_chars_le_transitive(a: Seq<char>, b: Seq<char>, c: Seq<char>)
    requires
        chars_le(a, b),
        chars_le(b, c),
    ensures
        chars_le(a, c),
    decreases a.len(),
{
    if a.len() > 0 && b.len() > 0 && c.len() > 0 && a[0] == b[0] && b[0] == c[0] {
        lemma_chars_le_transitive(a.drop_first(), b.drop_first(), c.drop_first());
    }
}

/// The string order is reflexive.
pub proof fn lemma_chars_le_reflexive(a: Seq<char>)
    ensures
        chars_le(a, a),
    decreases a.len(),
{
    if a.len() > 0 {
        lemma_chars_le_reflexive(a.drop_first());
    }
}

/// Compares two strings in the string order.
pub fn chars_le_exec(a: &[char], b: &[char]) -> (r: bool)
    ensures
        r == chars_le(a@, b@),
{
    let mut i: usize = 0;
    assert(a@.skip(0) =~= a@ && b@.skip(0) =~= b@);
    while i < a.len() && i < b.len() && a[i] == b[i]
        invariant
            i <= a@.len(),
            i <= b@.len(),
            chars_le(a@, b@) == chars_le(a@.skip(i as int), b@.skip(i as int)),
        decreases a@.len() - i,
    {
        proof {
            assert(a@.skip(i as int).drop_first() =~= a@.skip(i + 1));
            assert(b@.skip(i as int).drop_first() =~= b@.skip(i + 1));
        }
        i += 1;
    }
    proof {
        if i < a.len() && i < b.len() {
            assert(a@.skip(i as int)[0] == a@[i as int]);
            assert(b@.skip(i as int)[0] == b@[i as int]);
        }
    }
    if i == a.len() {
        true
    } else if i == b.len() {
        false
    } else {
        a[i] < b[i]
    }
}

/// Whether two strings are equal.
pub fn chars_eq(a: &[char], b: &[char]) -> (r: bool)
    ensures
        r == (a@ == b@),
{
    if a.len() != b.len() {
        return false;
    }
    let mut i: usize = 0;
    while i < a.len()
        invariant
            i <= a@.len(),
            a@.len() == b@.len(),
            forall|j: int| 0 <= j < i ==> a@[j] == b@[j],
        decreases a@.len() - i,
    {
        if a[i] != b[i] {
            assert(a@[i as int] != b@[i as int]);
            return false;
        }
        i += 1;
    }
    assert(a@ =~= b@);
    true
}

/// `String::from_utf8`: the text that some bytes encode, if they are valid UTF-8.
#[verifier::external_body]
pub(crate) fn utf8_text(bytes: Vec<u8>) -> (r: Option<String>)
    ensures
        r is Some <==> vstd::utf8::valid_utf8(bytes@),
        r matches Some(s) ==> s@ == vstd::utf8::decode_utf8(bytes@),
{
    String::from_utf8(bytes).ok()
}

/// A copy of a string.
pub fn copy_string(s: &str) -> (r: String)
    ensures
        r@ == s@,
{
    String::from_str(s)
}

/// Whether two strings are equal.
pub fn str_eq(a: &str, b: &str) -> (r: bool)
    ensures
        r == (a@ == b@),
{
    let a = chars_of(a);
    let b = chars_of(b);
    chars_eq(a.as_slice(), b.as_slice())
}

/// `a/b`: two parts of a storage path joined by a slash.
pub fn slash_join(a: &str, b: &str) -> (r: String)
    ensures
        r@ == a@ + "/"@ + b@,
{
    let mut r = String::from_str(a);
    r.append("/");
    r.append(b);
    r
}

/// The pieces of a split are no longer than what was split.
pub proof fn lemma_split_not_longer(s: Seq<char>, c: char, k: int)
    requires
        0 <= k < split_spec(s, c).len(),
    ensures
        split_spec(s, c)[k].len() <= s.len(),
    decreases s.len(),
{
    lemma_first_index_of(s, c);
    let i = first_index_of(s, c);
    if i < s.len() && k > 0 {
        lemma_split_not_longer(s.skip(i + 1), c, k - 1);
    }
}

/// The lines of a text are no longer than the text.
pub proof fn lemma_lines_not_longer(s: Seq<char>, k: int)
    requires
        0 <= k < lines_spec(s).len(),
    ensures
        lines_spec(s)[k].len() <= s.len(),
{
    let parts = split_spec(s, '\n');
    lemma_split_nonempty(s, '\n');
    if k < parts.len() - 1 {
        lemma_split_not_longer(s, '\n', k);
    } else {
        lemma_split_not_longer(s, '\n', parts.len() - 1);
    }
}

} // verus!
