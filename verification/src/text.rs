use vstd::prelude::*;

verus! {

/// Appends one character to a `String` (std's `String::push`): the text
/// grows by exactly that character at its end.
pub assume_specification[ String::push ](s: &mut String, ch: char)
    ensures
        final(s)@ == old(s)@.push(ch),
;

/// The character of a decimal digit `d` (0 to 9).
pub open spec fn digit_char(d: nat) -> char {
    ((d + 48) as u32) as char
}

/// Decimal digits of a natural number, most significant first, without
/// leading zeros ("0" for zero).
pub open spec fn digits_of(n: nat) -> Seq<char>
    decreases n,
{
    if n < 10 {
        seq![digit_char(n)]
    } else {
        digits_of(n / 10).push(digit_char(n % 10))
    }
}

/// The text that `Display` gives an integer: an optional `-` followed by the
/// decimal digits of its magnitude.
pub open spec fn decimal_text(n: int) -> Seq<char> {
    if n < 0 {
        seq!['-'] + digits_of((-n) as nat)
    } else {
        digits_of(n as nat)
    }
}

fn digit_to_char(d: u64) -> (c: char)
    requires
        d < 10,
    ensures
        c == digit_char(d as nat),
{
    ((d + 48) as u8) as char
}

fn push_digits(s: &mut String, m: u64)
    ensures
        final(s)@ == old(s)@ + digits_of(m as nat),
    decreases m,
{
    if m >= 10 {
        push_digits(s, m / 10);
    }
    s.push(digit_to_char(m % 10));
}

/// The decimal text of `n`, as `n.to_string()` gives it.
pub fn decimal_string(n: i64) -> (s: String)
    ensures
        s@ == decimal_text(n as int),
{
    let mut s = String::new();
    if n < 0 {
        s.push('-');
        let m: u64 = (-(n as i128)) as u64;
        push_digits(&mut s, m);
        assert(s@ == seq!['-'] + digits_of((-(n as int)) as nat));
    } else {
        push_digits(&mut s, n as u64);
        assert(s@ =~= digits_of(n as nat));
    }
    s
}

/// Whether `c` is one of the ASCII digits `0` to `9`.
pub open spec fn is_digit(c: char) -> bool {
    48 <= (c as u32) <= 57
}

/// The value of an ASCII digit character.
pub open spec fn digit_value(c: char) -> int {
    (c as u32) - 48
}

/// Whether every character of `d` is an ASCII digit.
pub open spec fn all_digits(d: Seq<char>) -> bool {
    forall|i: int| 0 <= i < d.len() ==> is_digit(#[trigger] d[i])
}

/// The number that a run of decimal digits denotes (0 for no digits).
pub open spec fn digits_value(d: Seq<char>) -> int
    decreases d.len(),
{
    if d.len() == 0 {
        0
    } else {
        digits_value(d.drop_last()) * 10 + digit_value(d.last())
    }
}

/// How many characters of `s` form its sign: 1 when it starts with `+` or
/// `-`, 0 otherwise.
pub open spec fn sign_len(s: Seq<char>) -> int {
    if s.len() > 0 && (s[0] == '+' || s[0] == '-') {
        1
    } else {
        0
    }
}

/// What `s.parse::<i64>()` accepts and gives back: an optional `+` or `-`,
/// then one or more decimal digits and nothing else, whose value fits in
/// an `i64`.
pub open spec fn parsed_i64(s: Seq<char>) -> Option<i64> {
    let d = s.subrange(sign_len(s), s.len() as int);
    let v = if s.len() > 0 && s[0] == '-' {
        -digits_value(d)
    } else {
        digits_value(d)
    };
    if d.len() == 0 || !all_digits(d) {
        None
    } else if i64::MIN <= v <= i64::MAX {
        Some(v as i64)
    } else {
        None
    }
}

proof fn lemma_digits_value_nonneg(d: Seq<char>)
    requires
        all_digits(d),
    ensures
        digits_value(d) >= 0,
    decreases d.len(),
{
    if d.len() > 0 {
        assert(all_digits(d.drop_last()));
        lemma_digits_value_nonneg(d.drop_last());
        assert(is_digit(d[d.len() - 1]));
    }
}

/// A longer run of digits never denotes a smaller number.
proof fn lemma_digits_value_prefix(d: Seq<char>, i: int, j: int)
    requires
        all_digits(d),
        0 <= i <= j <= d.len(),
    ensures
        digits_value(d.subrange(0, i)) <= digits_value(d.subrange(0, j)),
    decreases j - i,
{
    if i < j {
        lemma_digits_value_prefix(d, i, j - 1);
        let p = d.subrange(0, j);
        assert(p.drop_last() =~= d.subrange(0, j - 1));
        assert(all_digits(d.subrange(0, j - 1)));
        lemma_digits_value_nonneg(d.subrange(0, j - 1));
        assert(is_digit(d[j - 1]));
    }
}

/// Parses a decimal integer the way `s.parse::<i64>()` does; `None` where
/// that call returns an error.
pub fn parse_i64(s: &str) -> (r: Option<i64>)
    ensures
        r == parsed_i64(s@),
{
    let len = s.unicode_len();
    let mut start: usize = 0;
    let mut neg = false;
    if len > 0 {
        let c0 = s.get_char(0);
        if c0 == '+' || c0 == '-' {
            start = 1;
            neg = c0 == '-';
        }
    }
    let ghost d = s@.subrange(sign_len(s@), s@.len() as int);
    assert(start == sign_len(s@));
    assert(neg == (s@.len() > 0 && s@[0] == '-'));
    if start == len {
        return None;
    }
    let limit: u64 = if neg { 0x8000_0000_0000_0000 } else { 0x7fff_ffff_ffff_ffff };
    let mut acc: u64 = 0;
    let mut i: usize = start;
    while i < len
        invariant
            len == s@.len(),
            start == sign_len(s@),
            neg == (s@.len() > 0 && s@[0] == '-'),
            start <= i <= len,
            d == s@.subrange(start as int, len as int),
            acc == digits_value(d.subrange(0, i - start)),
            acc <= limit,
            limit == (if neg { 0x8000_0000_0000_0000u64 } else { 0x7fff_ffff_ffff_ffffu64 }),
            all_digits(d.subrange(0, i - start)),
        decreases len - i,
    {
        let c = s.get_char(i);
        assert(c == d[i - start]);
        if !('0' <= c && c <= '9') {
            assert(!is_digit(d[i - start]));
            return None;
        }
        let dv: u64 = (c as u32 - 48) as u64;
        let ghost k = (i - start) as int;
        assert(d.subrange(0, k + 1).drop_last() =~= d.subrange(0, k));
        assert(all_digits(d.subrange(0, k + 1)));
        assert(dv <= 9);
        if acc > (limit - dv) / 10 {
            proof {
                assert(digits_value(d.subrange(0, k + 1)) == acc * 10 + dv);
                assert(acc * 10 + dv > limit) by (nonlinear_arith)
                    requires
                        acc > (limit - dv) / 10,
                        dv <= limit,
                ;
                if all_digits(d) {
                    lemma_digits_value_prefix(d, k + 1, d.len() as int);
                    assert(d.subrange(0, d.len() as int) =~= d);
                }
            }
            return None;
        }
        acc = acc * 10 + dv;
        i = i + 1;
    }
    assert(d.subrange(0, (len - start) as int) =~= d);
    if neg {
        if acc == 0x8000_0000_0000_0000 {
            Some(i64::MIN)
        } else {
            Some(-(acc as i64))
        }
    } else {
        Some(acc as i64)
    }
}

/// Index of the first `:` of `s` at or after `i`; `s.len()` when there is
/// none.
pub open spec fn colon_from(s: Seq<char>, i: int) -> int
    decreases s.len() - i,
{
    if i >= s.len() {
        s.len() as int
    } else if s[i] == ':' {
        i
    } else {
        colon_from(s, i + 1)
    }
}

/// Whether `s` holds a `:` at all.
pub open spec fn has_colon(s: Seq<char>) -> bool {
    colon_from(s, 0) < s.len()
}

/// The text before the first `:` (all of `s` when there is none): field 0
/// of `s.split(':')`.
pub open spec fn first_field(s: Seq<char>) -> Seq<char> {
    s.subrange(0, colon_from(s, 0))
}

/// The text between the first and the second `:` (or the end): field 1 of
/// `s.split(':')`, which exists only when `s` holds a `:`.
pub open spec fn second_field(s: Seq<char>) -> Seq<char> {
    let a = colon_from(s, 0);
    s.subrange(a + 1, colon_from(s, a + 1))
}

/// The search for `:` from `i` stops inside the text, at a `:` or at the
/// end, and passes over no `:`.
pub proof fn lemma_colon_from_bounds(s: Seq<char>, i: int)
    requires
        0 <= i <= s.len(),
    ensures
        i <= colon_from(s, i) <= s.len(),
        colon_from(s, i) < s.len() ==> s[colon_from(s, i)] == ':',
        forall|k: int| i <= k < colon_from(s, i) ==> s[k] != ':',
    decreases s.len() - i,
{
    if i < s.len() && s[i] != ':' {
        lemma_colon_from_bounds(s, i + 1);
    }
}

fn find_colon(s: &str, len: usize, from: usize) -> (r: usize)
    requires
        len == s@.len(),
        from <= len,
    ensures
        r == colon_from(s@, from as int),
{
    let mut i = from;
    while i < len
        invariant
            len == s@.len(),
            from <= i <= len,
            colon_from(s@, from as int) == colon_from(s@, i as int),
        decreases len - i,
    {
        if s.get_char(i) == ':' {
            return i;
        }
        i = i + 1;
    }
    i
}

/// The first two `:`-separated fields of `s`, as `s.split(':')` yields
/// them: the text before the first `:`, and, when there is a `:`, the text
/// that follows it up to the next `:` or the end.
pub fn split_address(s: &str) -> (r: (String, Option<String>))
    ensures
        r.0@ == first_field(s@),
        r.1 is Some <==> has_colon(s@),
        r.1 matches Some(t) ==> t@ == second_field(s@),
{
    let len = s.unicode_len();
    let a = find_colon(s, len, 0);
    proof {
        lemma_colon_from_bounds(s@, 0);
    }
    let first = s.substring_char(0, a).to_owned();
    if a < len {
        let b = find_colon(s, len, a + 1);
        proof {
            lemma_colon_from_bounds(s@, a + 1);
        }
        let second = s.substring_char(a + 1, b).to_owned();
        (first, Some(second))
    } else {
        (first, None)
    }
}

/// The `ip:port` text under which a peer is recorded, as
/// `format!("{}:{}", ip, port)` writes it.
pub open spec fn address_text(ip: Seq<char>, port: int) -> Seq<char> {
    ip + seq![':'] + decimal_text(port)
}

/// An `ip:port` text holds a `:`.
pub proof fn lemma_address_has_colon(ip: Seq<char>, port: int)
    ensures
        has_colon(address_text(ip, port)),
{
    let s = address_text(ip, port);
    lemma_colon_from_bounds(s, 0);
    if colon_from(s, 0) == s.len() {
        assert(s[ip.len() as int] == ':');
    }
}

/// Writes `ip:port` for a peer.
pub fn address_key(ip: &str, port: i64) -> (s: String)
    ensures
        s@ == address_text(ip@, port as int),
{
    let mut s = ip.to_owned();
    s.push(':');
    let p = decimal_string(port);
    s.append(p.as_str());
    s
}

/// Whether two texts are equal.
pub fn text_eq(a: &str, b: &str) -> (r: bool)
    ensures
        r == (a@ == b@),
{
    a.to_owned() == b.to_owned()
}

/// The text that the bytes encode in UTF-8 (std's `String::from_utf8`):
/// `None` exactly when the bytes are not valid UTF-8, as that function's
/// documentation says; otherwise the decoded characters.
#[verifier::external_body]
pub fn utf8_text(bytes: &[u8]) -> (r: Option<String>)
    ensures
        r is Some <==> vstd::utf8::valid_utf8(bytes@),
        r matches Some(t) ==> t@ == vstd::utf8::decode_utf8(bytes@),
{
    String::from_utf8(bytes.to_vec()).ok()
}

/// Index of the first occurrence of `x` in `s` at or after `i`; `s.len()`
/// when there is none.
pub open spec fn index_from(s: Seq<Seq<char>>, x: Seq<char>, i: int) -> int
    decreases s.len() - i,
{
    if i >= s.len() {
        s.len() as int
    } else if s[i] == x {
        i
    } else {
        index_from(s, x, i + 1)
    }
}

/// Index of the first occurrence of `x` in `s`; `s.len()` when there is
/// none.
pub open spec fn first_index(s: Seq<Seq<char>>, x: Seq<char>) -> int {
    index_from(s, x, 0)
}

/// The search for `x` from `i` stops inside the sequence, at `x` or at the
/// end, and passes over no `x`.
pub proof fn lemma_index_from(s: Seq<Seq<char>>, x: Seq<char>, i: int)
    requires
        0 <= i <= s.len(),
    ensures
        i <= index_from(s, x, i) <= s.len(),
        index_from(s, x, i) < s.len() ==> s[index_from(s, x, i)] == x,
        forall|k: int| i <= k < index_from(s, x, i) ==> s[k] != x,
    decreases s.len() - i,
{
    if i < s.len() && s[i] != x {
        lemma_index_from(s, x, i + 1);
    }
}

/// The first occurrence of `x` is found exactly when `x` occurs.
pub proof fn lemma_first_index(s: Seq<Seq<char>>, x: Seq<char>)
    ensures
        0 <= first_index(s, x) <= s.len(),
        first_index(s, x) < s.len() <==> s.contains(x),
        first_index(s, x) < s.len() ==> s[first_index(s, x)] == x,
        forall|k: int| 0 <= k < first_index(s, x) ==> s[k] != x,
{
    lemma_index_from(s, x, 0);
    if s.contains(x) {
        let k = choose|k: int| 0 <= k < s.len() && s[k] == x;
        assert(s[k] == x);
    }
}

/// The texts of a sequence of strings.
pub open spec fn texts(v: Seq<String>) -> Seq<Seq<char>> {
    v.map_values(|s: String| s@)
}

/// Where `t` first stands in `v`; `v.len()` when it is not there.
pub fn find_text(v: &Vec<String>, t: &str) -> (r: usize)
    ensures
        r == first_index(texts(v@), t@),
{
    let target = t.to_owned();
    let mut i: usize = 0;
    while i < v.len()
        invariant
            i <= v@.len(),
            target@ == t@,
            first_index(texts(v@), t@) == index_from(texts(v@), t@, i as int),
        decreases v@.len() - i,
    {
        if v[i] == target {
            return i;
        }
        i = i + 1;
    }
    i
}

/// What is left of `s` once the first occurrence of `k` is taken out
/// (`s` itself when `k` does not occur).
pub open spec fn without(s: Seq<Seq<char>>, k: Seq<char>) -> Seq<Seq<char>> {
    if s.contains(k) {
        s.remove(first_index(s, k))
    } else {
        s
    }
}

/// Taking one key out keeps every other key, and removes exactly one entry
/// when the key is there: the sequence is the same as before with one
/// occurrence of the key less.
pub proof fn lemma_without_keeps_others(s: Seq<Seq<char>>, key: Seq<char>)
    ensures
        forall|k: Seq<char>| k != key ==> (without(s, key).contains(k) <==> s.contains(k)),
        s.contains(key) ==> without(s, key).len() == s.len() - 1,
        !s.contains(key) ==> without(s, key) == s,
        s.no_duplicates() ==> !without(s, key).contains(key),
{
    lemma_first_index(s, key);
    if s.contains(key) {
        let i = first_index(s, key);
        let r = s.remove(i);
        assert forall|k: Seq<char>| k != key implies (r.contains(k) <==> s.contains(k)) by {
            if r.contains(k) {
                let j = choose|j: int| 0 <= j < r.len() && r[j] == k;
                if j < i {
                    assert(s[j] == k);
                } else {
                    assert(s[j + 1] == k);
                }
            }
            if s.contains(k) {
                let j = choose|j: int| 0 <= j < s.len() && s[j] == k;
                assert(j != i);
                if j < i {
                    assert(r[j] == k);
                } else {
                    assert(r[j - 1] == k);
                }
            }
        }
        if s.no_duplicates() {
            assert forall|j: int| 0 <= j < r.len() implies r[j] != key by {
                if j < i {
                    assert(r[j] == s[j]);
                } else {
                    assert(r[j] == s[j + 1]);
                }
            }
        }
    }
}

proof fn lemma_digit_char(d: nat)
    requires
        d < 10,
    ensures
        is_digit(digit_char(d)),
        digit_value(digit_char(d)) == d,
{
    assert(((d + 48) as u32) as char as u32 == (d + 48) as u32);
}

/// The decimal digits of a number are digits, denote that number, and
/// start with a digit.
pub proof fn lemma_digits_of(n: nat)
    ensures
        all_digits(digits_of(n)),
        digits_value(digits_of(n)) == n,
        digits_of(n).len() > 0,
    decreases n,
{
    lemma_digit_char(n % 10);
    if n < 10 {
        assert(n % 10 == n);
        let d = digits_of(n);
        assert(d.drop_last() =~= Seq::<char>::empty());
        assert(digits_value(d.drop_last()) == 0);
    }
    if n >= 10 {
        lemma_digits_of(n / 10);
        let d = digits_of(n);
        assert(d.drop_last() =~= digits_of(n / 10));
        assert((n / 10) * 10 + n % 10 == n) by (nonlinear_arith);
        assert(d.last() == digit_char(n % 10));
        assert(digits_value(d) == digits_value(d.drop_last()) * 10 + digit_value(d.last()));
        assert forall|i: int| 0 <= i < d.len() implies is_digit(#[trigger] d[i]) by {
            if i < d.len() - 1 {
                assert(d[i] == digits_of(n / 10)[i]);
            }
        }
    }
}

/// What `Display` writes for an `i64`, `parse::<i64>()` reads back as the
/// same number.
pub proof fn lemma_decimal_roundtrip(n: i64)
    ensures
        parsed_i64(decimal_text(n as int)) == Some(n),
{
    let t = decimal_text(n as int);
    if n < 0 {
        let m = (-(n as int)) as nat;
        lemma_digits_of(m);
        assert(t.subrange(1, t.len() as int) =~= digits_of(m));
    } else {
        lemma_digits_of(n as nat);
        let d = digits_of(n as nat);
        assert(is_digit(d[0]));
        assert(t.subrange(0, t.len() as int) =~= t);
    }
}

/// Decimal text holds no `:`.
pub proof fn lemma_decimal_no_colon(n: int)
    ensures
        !decimal_text(n).contains(':'),
{
    let t = decimal_text(n);
    let m = if n < 0 { (-n) as nat } else { n as nat };
    lemma_digits_of(m);
    let d = digits_of(m);
    assert forall|i: int| 0 <= i < t.len() implies t[i] != ':' by {
        if n < 0 {
            if i > 0 {
                assert(t[i] == d[i - 1]);
                assert(is_digit(d[i - 1]));
            }
        } else {
            assert(is_digit(d[i]));
        }
    }
}

/// The `ip:port` text of a peer whose address holds no `:` splits back into
/// that address and the decimal text of that port.
pub proof fn lemma_address_fields(ip: Seq<char>, port: int)
    requires
        !ip.contains(':'),
    ensures
        has_colon(address_text(ip, port)),
        first_field(address_text(ip, port)) == ip,
        second_field(address_text(ip, port)) == decimal_text(port),
{
    let s = address_text(ip, port);
    let n = ip.len() as int;
    lemma_decimal_no_colon(port);
    lemma_colon_from_bounds(s, 0);
    assert(s[n] == ':');
    assert forall|k: int| 0 <= k < n implies s[k] != ':' by {
        assert(s[k] == ip[k]);
    }
    assert(colon_from(s, 0) == n) by {
        if colon_from(s, 0) < n {
            assert(s[colon_from(s, 0)] == ':');
        }
    }
    lemma_colon_from_bounds(s, n + 1);
    assert(colon_from(s, n + 1) == s.len()) by {
        if colon_from(s, n + 1) < s.len() {
            let c = colon_from(s, n + 1);
            assert(s[c] == decimal_text(port)[c - n - 1]);
        }
    }
    assert(first_field(s) =~= ip);
    assert(second_field(s) =~= decimal_text(port));
}

/// Whether `s` holds the separator `->` at index `i`.
pub open spec fn arrow_at(s: Seq<char>, i: int) -> bool {
    0 <= i && i + 1 < s.len() && s[i] == '-' && s[i + 1] == '>'
}

/// Index of the first `->` of `s` at or after `i`; `s.len()` when there is
/// none.
pub open spec fn arrow_from(s: Seq<char>, i: int) -> int
    decreases s.len() - i,
{
    if i + 1 >= s.len() {
        s.len() as int
    } else if arrow_at(s, i) {
        i
    } else {
        arrow_from(s, i + 1)
    }
}

/// The search for `->` from `i` stops at a `->` at or after `i`, or at the
/// end.
pub proof fn lemma_arrow_from_bounds(s: Seq<char>, i: int)
    requires
        0 <= i,
    ensures
        arrow_from(s, i) == s.len() || (i <= arrow_from(s, i) && arrow_at(s, arrow_from(s, i))),
        arrow_from(s, i) >= i || arrow_from(s, i) == s.len(),
    decreases s.len() - i,
{
    if i + 1 < s.len() && !arrow_at(s, i) {
        lemma_arrow_from_bounds(s, i + 1);
    }
}

/// The parts of `s` between the separators `->`, as `s.split("->")` yields
/// them: separators are found left to right without overlap, and text with
/// none is one part.
pub open spec fn path_parts(s: Seq<char>) -> Seq<Seq<char>>
    decreases s.len(),
{
    let a = arrow_from(s, 0);
    if a >= s.len() {
        seq![s]
    } else {
        proof {
            lemma_arrow_from_bounds(s, 0);
        }
        seq![s.subrange(0, a)] + path_parts(s.subrange(a + 2, s.len() as int))
    }
}

/// Splits a path such as `a->b->c` into its parts.
pub fn path_segments(path: &str) -> (v: Vec<String>)
    ensures
        texts(v@) == path_parts(path@),
{
    let len = path.unicode_len();
    let ghost s = path@;
    let mut out: Vec<String> = Vec::new();
    let mut start: usize = 0;
    let mut i: usize = 0;
    assert(s.subrange(0, len as int) =~= s);
    assert(texts(out@) + path_parts(s) =~= path_parts(s));
    while len > 0 && i < len - 1
        invariant
            len == s.len(),
            s == path@,
            start <= i <= len,
            texts(out@) + path_parts(s.subrange(start as int, len as int)) == path_parts(s),
            arrow_from(s.subrange(start as int, len as int), 0) == arrow_from(
                s.subrange(start as int, len as int),
                i - start,
            ),
        decreases len - i,
    {
        let ghost sub = s.subrange(start as int, len as int);
        if path.get_char(i) == '-' && path.get_char(i + 1) == '>' {
            let ghost k = (i - start) as int;
            assert(arrow_at(sub, k));
            assert(arrow_from(sub, 0) == k);
            let part = path.substring_char(start, i).to_owned();
            assert(part@ =~= sub.subrange(0, k));
            assert(sub.subrange(k + 2, sub.len() as int) =~= s.subrange(i + 2, len as int));
            let ghost before = texts(out@);
            out.push(part);
            assert(texts(out@) =~= before.push(sub.subrange(0, k)));
            assert(path_parts(sub) == seq![sub.subrange(0, k)] + path_parts(
                s.subrange(i + 2, len as int),
            ));
            assert(texts(out@) + path_parts(s.subrange(i + 2, len as int)) =~= before + path_parts(
                sub,
            ));
            start = i + 2;
            i = i + 2;
        } else {
            let ghost k = (i - start) as int;
            assert(!arrow_at(sub, k));
            i = i + 1;
        }
    }
    let ghost sub = s.subrange(start as int, len as int);
    assert(arrow_from(sub, 0) == sub.len()) by {
        assert(arrow_from(sub, (i - start) as int) == sub.len());
    }
    let last = path.substring_char(start, len).to_owned();
    let ghost before = texts(out@);
    out.push(last);
    assert(texts(out@) =~= before + path_parts(sub));
    out
}

/// The parts joined back with `->` between them.
pub open spec fn join_arrows(parts: Seq<Seq<char>>) -> Seq<char>
    decreases parts.len(),
{
    if parts.len() <= 1 {
        if parts.len() == 1 {
            parts[0]
        } else {
            Seq::empty()
        }
    } else {
        parts[0] + seq!['-', '>'] + join_arrows(parts.drop_first())
    }
}

/// Splitting a path at `->` loses nothing: there is at least one part, no
/// part holds `->`, and joining the parts with `->` gives the path back.
pub proof fn lemma_path_parts_join(s: Seq<char>)
    ensures
        path_parts(s).len() >= 1,
        join_arrows(path_parts(s)) == s,
        forall|i: int|
            0 <= i < path_parts(s).len() ==> arrow_from(#[trigger] path_parts(s)[i], 0)
                == path_parts(s)[i].len(),
    decreases s.len(),
{
    lemma_arrow_from_bounds(s, 0);
    let a = arrow_from(s, 0);
    if a >= s.len() {
        assert(path_parts(s) == seq![s]);
    } else {
        let head = s.subrange(0, a);
        let rest = s.subrange(a + 2, s.len() as int);
        lemma_path_parts_join(rest);
        let p = path_parts(s);
        assert(p == seq![head] + path_parts(rest));
        assert(p.drop_first() =~= path_parts(rest));
        assert(p[0] == head);
        assert(head + seq!['-', '>'] + rest =~= s);
        lemma_no_arrow_before(s, 0, a);
        assert forall|i: int| 0 <= i < p.len() implies arrow_from(#[trigger] p[i], 0)
            == p[i].len() by {
            if i == 0 {
                lemma_arrow_prefix(s, a);
            } else {
                assert(p[i] == path_parts(rest)[i - 1]);
            }
        }
    }
}

proof fn lemma_no_arrow_before(s: Seq<char>, i: int, a: int)
    requires
        0 <= i,
        a == arrow_from(s, i),
    ensures
        forall|k: int| i <= k < a ==> !arrow_at(s, k),
    decreases s.len() - i,
{
    if i + 1 < s.len() && !arrow_at(s, i) {
        lemma_no_arrow_before(s, i + 1, a);
    }
}

proof fn lemma_arrow_prefix(s: Seq<char>, a: int)
    requires
        a == arrow_from(s, 0),
        0 <= a <= s.len(),
        forall|k: int| 0 <= k < a ==> !arrow_at(s, k),
    ensures
        arrow_from(s.subrange(0, a), 0) == a,
{
    let h = s.subrange(0, a);
    lemma_arrow_from_bounds(h, 0);
    let b = arrow_from(h, 0);
    if b < a {
        assert(arrow_at(h, b));
        assert(arrow_at(s, b));
    }
}

} // verus!
