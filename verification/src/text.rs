use vstd::prelude::*;

verus! {

broadcast use vstd::string::group_string_axioms;

/// Appends one character to a `String` by calling `String::push`.
///
/// Trusted: the contract claims, as std documents for `String::push`, that
/// afterwards the string holds its old characters followed by `c`; nothing
/// here proves it.
#[verifier::external_body]
pub(crate) fn push_char(s: &mut String, c: char)
    ensures
        final(s)@ == old(s)@.push(c),
{
    s.push(c);
}

/// The characters of a string slice, in order.
pub fn str_to_chars(s: &str) -> (v: Vec<char>)
    ensures
        v@ == s@,
{
    let mut v: Vec<char> = Vec::new();
    for c in it: s.chars()
        invariant
            v@ == it.seq().take(it.index() as int),
    {
        v.push(c);
    }
    v
}

/// A `String` holding exactly the given characters.
pub fn chars_to_string(cs: &Vec<char>) -> (s: String)
    ensures
        s@ == cs@,
{
    let mut s = String::new();
    let mut i: usize = 0;
    while i < cs.len()
        invariant
            i <= cs.len(),
            s@ == cs@.take(i as int),
        decreases cs.len() - i,
    {
        push_char(&mut s, cs[i]);
        i += 1;
        assert(cs@.take(i as int) =~= cs@.take((i - 1) as int).push(cs@[i - 1]));
    }
    assert(cs@.take(cs.len() as int) =~= cs@);
    s
}


/// Unicode `White_Space`, the set `char::is_whitespace` tests for.
pub open spec fn is_ws(c: char) -> bool {
    let v = c as u32;
    (0x09 <= v <= 0x0d) || v == 0x20 || v == 0x85 || v == 0xa0 || v == 0x1680 || (0x2000 <= v <= 0x200a)
        || v == 0x2028 || v == 0x2029 || v == 0x202f || v == 0x205f || v == 0x3000
}

/// `char::is_whitespace`.
pub fn is_whitespace(c: char) -> (r: bool)
    ensures
        r == is_ws(c),
{
    let v = c as u32;
    (0x09 <= v && v <= 0x0d) || v == 0x20 || v == 0x85 || v == 0xa0 || v == 0x1680 || (0x2000 <= v && v <= 0x200a)
        || v == 0x2028 || v == 0x2029 || v == 0x202f || v == 0x205f || v == 0x3000
}

pub open spec fn is_digit(c: char) -> bool {
    '0' <= c <= '9'
}

pub open spec fn digit_value(c: char) -> int {
    c as int - '0' as int
}

/// Words of `s` split at whitespace, as far as read: finished words and the
/// word being read.
pub open spec fn split_ws_state(s: Seq<char>) -> (Seq<Seq<char>>, Seq<char>)
    decreases s.len(),
{
    if s.len() == 0 {
        (seq![], seq![])
    } else {
        let (done, cur) = split_ws_state(s.drop_last());
        let c = s.last();
        if is_ws(c) {
            if cur.len() > 0 {
                (done.push(cur), seq![])
            } else {
                (done, cur)
            }
        } else {
            (done, cur.push(c))
        }
    }
}

/// `str::split_whitespace`: the maximal runs of non-whitespace characters.
pub open spec fn spec_split_whitespace(s: Seq<char>) -> Seq<Seq<char>> {
    let (done, cur) = split_ws_state(s);
    if cur.len() > 0 {
        done.push(cur)
    } else {
        done
    }
}

/// The non-empty runs of non-whitespace characters of `cs`, in order.
pub fn split_whitespace(cs: &Vec<char>) -> (r: Vec<Vec<char>>)
    ensures
        r@.len() == spec_split_whitespace(cs@).len(),
        forall|i: int| 0 <= i < r@.len() ==> (#[trigger] r@[i])@ == spec_split_whitespace(cs@)[i],
{
    let mut done: Vec<Vec<char>> = Vec::new();
    let mut cur: Vec<char> = Vec::new();
    let mut i: usize = 0;
    while i < cs.len()
        invariant
            i <= cs.len(),
            done@.len() == split_ws_state(cs@.take(i as int)).0.len(),
            forall|k: int| 0 <= k < done@.len() ==> (#[trigger] done@[k])@ == split_ws_state(cs@.take(i as int)).0[k],
            cur@ == split_ws_state(cs@.take(i as int)).1,
        decreases cs.len() - i,
    {
        let c = cs[i];
        assert(cs@.take(i + 1).drop_last() =~= cs@.take(i as int));
        assert(cs@.take(i + 1).last() == c);
        if is_whitespace(c) {
            if cur.len() > 0 {
                let w = cur;
                done.push(w);
                cur = Vec::new();
            }
        } else {
            cur.push(c);
        }
        i += 1;
    }
    assert(cs@.take(cs.len() as int) =~= cs@);
    if cur.len() > 0 {
        done.push(cur);
    }
    done
}

/// Pieces of `s` between occurrences of `sep`, as far as read.
pub open spec fn split_char_state(s: Seq<char>, sep: char) -> (Seq<Seq<char>>, Seq<char>)
    decreases s.len(),
{
    if s.len() == 0 {
        (seq![], seq![])
    } else {
        let (done, cur) = split_char_state(s.drop_last(), sep);
        let c = s.last();
        if c == sep {
            (done.push(cur), seq![])
        } else {
            (done, cur.push(c))
        }
    }
}

/// `str::split` with a character: the pieces between separators, empty
/// pieces included.
pub open spec fn spec_split_char(s: Seq<char>, sep: char) -> Seq<Seq<char>> {
    let (done, cur) = split_char_state(s, sep);
    done.push(cur)
}

/// The pieces of `cs` between occurrences of `sep`, empty ones included.
pub fn split_char(cs: &Vec<char>, sep: char) -> (r: Vec<Vec<char>>)
    ensures
        r@.len() == spec_split_char(cs@, sep).len(),
        forall|i: int| 0 <= i < r@.len() ==> (#[trigger] r@[i])@ == spec_split_char(cs@, sep)[i],
{
    let mut done: Vec<Vec<char>> = Vec::new();
    let mut cur: Vec<char> = Vec::new();
    let mut i: usize = 0;
    while i < cs.len()
        invariant
            i <= cs.len(),
            done@.len() == split_char_state(cs@.take(i as int), sep).0.len(),
            forall|k: int|
                0 <= k < done@.len() ==> (#[trigger] done@[k])@ == split_char_state(cs@.take(i as int), sep).0[k],
            cur@ == split_char_state(cs@.take(i as int), sep).1,
        decreases cs.len() - i,
    {
        let c = cs[i];
        assert(cs@.take(i + 1).drop_last() =~= cs@.take(i as int));
        assert(cs@.take(i + 1).last() == c);
        if c == sep {
            let w = cur;
            done.push(w);
            cur = Vec::new();
        } else {
            cur.push(c);
        }
        i += 1;
    }
    assert(cs@.take(cs.len() as int) =~= cs@);
    done.push(cur);
    done
}

/// The number that a string of decimal digits spells.
pub open spec fn decimal_value(d: Seq<char>) -> nat
    decreases d.len(),
{
    if d.len() == 0 {
        0
    } else {
        decimal_value(d.drop_last()) * 10 + (digit_value(d.last()) as nat)
    }
}

pub open spec fn all_digits(d: Seq<char>) -> bool {
    forall|i: int| 0 <= i < d.len() ==> is_digit(#[trigger] d[i])
}

/// `u32::from_str`: an optional `+`, then one or more ASCII digits whose
/// value fits in a `u32`.
pub open spec fn spec_parse_u32(s: Seq<char>) -> Option<u32> {
    let d = if s.len() > 0 && s[0] == '+' {
        s.skip(1)
    } else {
        s
    };
    if d.len() > 0 && all_digits(d) && decimal_value(d) <= u32::MAX {
        Some(decimal_value(d) as u32)
    } else {
        None
    }
}

/// Reads a `u32` the way `str::parse::<u32>` does.
pub fn parse_u32(s: &Vec<char>) -> (r: Option<u32>)
    ensures
        r == spec_parse_u32(s@),
{
    let start: usize = if s.len() > 0 && s[0] == '+' { 1 } else { 0 };
    let ghost d = if s@.len() > 0 && s@[0] == '+' {
        s@.skip(1)
    } else {
        s@
    };
    assert(d =~= s@.skip(start as int));
    if start >= s.len() {
        assert(d.len() == 0);
        return None;
    }
    let mut value: u64 = 0;
    let mut i: usize = start;
    while i < s.len()
        invariant
            start <= i <= s.len(),
            start < s.len(),
            d == s@.skip(start as int),
            d == (if s@.len() > 0 && s@[0] == '+' {
                s@.skip(1)
            } else {
                s@
            }),
            all_digits(d.take(i - start)),
            value == decimal_value(d.take(i - start)),
            value <= u32::MAX,
        decreases s.len() - i,
    {
        let c = s[i];
        assert(d.take(i - start + 1).drop_last() =~= d.take(i - start));
        assert(d.take(i - start + 1).last() == c);
        if !('0' <= c && c <= '9') {
            assert(d[i - start] == c);
            assert(!is_digit(d[i - start]));
            assert(!all_digits(d));
            return None;
        }
        let next = value * 10 + (c as u64 - '0' as u64);
        if next > 4294967295u64 {
            proof {
                if all_digits(d) {
                    lemma_decimal_prefix_grows(d, i - start + 1);
                }
            }
            return None;
        }
        value = next;
        i += 1;
    }
    assert(d.take(s.len() - start) =~= d);
    Some(value as u32)
}

/// A longer digit prefix never spells a smaller number.
pub proof fn lemma_decimal_prefix_grows(d: Seq<char>, k: int)
    requires
        0 <= k <= d.len(),
        all_digits(d),
    ensures
        decimal_value(d.take(k)) <= decimal_value(d),
    decreases d.len() - k,
{
    if k < d.len() {
        lemma_decimal_prefix_grows(d, k + 1);
        assert(d.take(k + 1).drop_last() =~= d.take(k));
        assert(is_digit(d[k]));
    } else {
        assert(d.take(k) =~= d);
    }
}

pub open spec fn digit_char(v: int) -> char {
    (v + '0' as int) as char
}

/// Decimal digits of `n`, without leading zeros (`0` for zero).
pub open spec fn spec_decimal(n: nat) -> Seq<char>
    decreases n,
{
    if n < 10 {
        seq![digit_char(n as int)]
    } else {
        spec_decimal(n / 10).push(digit_char((n % 10) as int))
    }
}

/// Appends the decimal digits of `n` to `s`.
pub fn push_decimal(s: &mut String, n: u128)
    ensures
        final(s)@ == old(s)@ + spec_decimal(n as nat),
    decreases n,
{
    if n < 10 {
        push_char(s, ((n as u32) + ('0' as u32)) as u8 as char);
        assert(final(s)@ =~= old(s)@ + spec_decimal(n as nat));
    } else {
        push_decimal(s, n / 10);
        push_char(s, (((n % 10) as u32) + ('0' as u32)) as u8 as char);
        assert(final(s)@ =~= old(s)@ + spec_decimal(n as nat));
    }
}

/// Appends the characters of `cs` to `s`.
pub fn push_chars(s: &mut String, cs: &Vec<char>)
    ensures
        final(s)@ == old(s)@ + cs@,
{
    let mut i: usize = 0;
    while i < cs.len()
        invariant
            i <= cs.len(),
            s@ == old(s)@ + cs@.take(i as int),
        decreases cs.len() - i,
    {
        push_char(s, cs[i]);
        assert(cs@.take(i + 1) =~= cs@.take(i as int).push(cs@[i as int]));
        i += 1;
    }
    assert(cs@.take(cs.len() as int) =~= cs@);
}

/// Appends the characters of `t` to `s`.
pub fn push_str(s: &mut String, t: &str)
    ensures
        final(s)@ == old(s)@ + t@,
{
    let cs = str_to_chars(t);
    push_chars(s, &cs);
}


/// `str::trim_start`: leading whitespace removed.
pub open spec fn spec_trim_start(s: Seq<char>) -> Seq<char>
    decreases s.len(),
{
    if s.len() > 0 && is_ws(s[0]) {
        spec_trim_start(s.drop_first())
    } else {
        s
    }
}

/// `str::trim_end`: trailing whitespace removed.
pub open spec fn spec_trim_end(s: Seq<char>) -> Seq<char>
    decreases s.len(),
{
    if s.len() > 0 && is_ws(s.last()) {
        spec_trim_end(s.drop_last())
    } else {
        s
    }
}

/// `str::trim`.
pub open spec fn spec_trim(s: Seq<char>) -> Seq<char> {
    spec_trim_end(spec_trim_start(s))
}

/// `str::trim_end_matches` with one character.
pub open spec fn spec_strip_end(s: Seq<char>, c: char) -> Seq<char>
    decreases s.len(),
{
    if s.len() > 0 && s.last() == c {
        spec_strip_end(s.drop_last(), c)
    } else {
        s
    }
}

/// `str::replace`: occurrences of `pat` found left to right, without
/// overlapping, replaced by `rep`.
pub open spec fn spec_replace(s: Seq<char>, pat: Seq<char>, rep: Seq<char>) -> Seq<char>
    decreases s.len(),
{
    if pat.len() == 0 || s.len() < pat.len() {
        s
    } else if s.take(pat.len() as int) == pat {
        rep + spec_replace(s.skip(pat.len() as int), pat, rep)
    } else {
        seq![s[0]] + spec_replace(s.drop_first(), pat, rep)
    }
}

/// Bytes of `c` in UTF-8.
pub open spec fn utf8_width(c: char) -> nat {
    if (c as u32) < 0x80 {
        1
    } else if (c as u32) < 0x800 {
        2
    } else if (c as u32) < 0x10000 {
        3
    } else {
        4
    }
}

/// Bytes of `s` in UTF-8.
pub open spec fn utf8_len(s: Seq<char>) -> nat
    decreases s.len(),
{
    if s.len() == 0 {
        0
    } else {
        utf8_len(s.drop_last()) + utf8_width(s.last())
    }
}

fn utf8_width_exec(c: char) -> (r: usize)
    ensures
        r == utf8_width(c),
{
    let v = c as u32;
    if v < 0x80 {
        1
    } else if v < 0x800 {
        2
    } else if v < 0x10000 {
        3
    } else {
        4
    }
}

/// Bytes of the first `n` characters of `cs` in UTF-8, when fewer than `bound`.
pub fn utf8_len_below(cs: &Vec<char>, n: usize, bound: usize) -> (r: Option<usize>)
    requires
        n <= cs.len(),
    ensures
        match r {
            Some(t) => t == utf8_len(cs@.take(n as int)) && t < bound,
            None => utf8_len(cs@.take(n as int)) >= bound,
        },
{
    if bound == 0 {
        return None;
    }
    let mut total: u128 = 0;
    let mut i: usize = 0;
    assert(cs@.take(0) =~= Seq::<char>::empty());
    while i < n
        invariant
            i <= n <= cs.len(),
            total == utf8_len(cs@.take(i as int)),
            total < bound,
        decreases n - i,
    {
        assert(cs@.take(i + 1).drop_last() =~= cs@.take(i as int));
        total = total + utf8_width_exec(cs[i]) as u128;
        i += 1;
        if total >= bound as u128 {
            proof {
                lemma_utf8_len_prefix(cs@, i as int, n as int);
            }
            return None;
        }
    }
    Some(total as usize)
}

/// A longer prefix has at least as many bytes.
pub proof fn lemma_utf8_len_prefix(s: Seq<char>, i: int, n: int)
    requires
        0 <= i <= n <= s.len(),
    ensures
        utf8_len(s.take(i)) <= utf8_len(s.take(n)),
    decreases n - i,
{
    if i < n {
        lemma_utf8_len_prefix(s, i, n - 1);
        assert(s.take(n).drop_last() =~= s.take(n - 1));
    }
}

/// Index of the first occurrence of `c` in `s`, if any.
pub open spec fn first_index(s: Seq<char>, c: char) -> Option<int> {
    if exists|i: int| 0 <= i < s.len() && s[i] == c {
        Some(choose|i: int| 0 <= i < s.len() && s[i] == c && forall|j: int| 0 <= j < i ==> s[j] != c)
    } else {
        None
    }
}

/// The first index of `c` in `cs`.
pub fn find_char(cs: &Vec<char>, c: char) -> (r: Option<usize>)
    ensures
        match r {
            Some(i) => first_index(cs@, c) == Some(i as int) && i < cs.len() && cs@[i as int] == c && forall|j: int|
                0 <= j < i ==> cs@[j] != c,
            None => first_index(cs@, c) is None && forall|j: int| 0 <= j < cs.len() ==> cs@[j] != c,
        },
{
    let mut i: usize = 0;
    while i < cs.len()
        invariant
            i <= cs.len(),
            forall|j: int| 0 <= j < i ==> cs@[j] != c,
        decreases cs.len() - i,
    {
        if cs[i] == c {
            let ghost k = choose|k: int| 0 <= k < cs@.len() && cs@[k] == c && forall|j: int| 0 <= j < k ==> cs@[j] != c;
            assert(k == i) by {
                if k < i {
                } else if k > i {
                    assert(cs@[i as int] == c);
                }
            }
            return Some(i);
        }
        i += 1;
    }
    None
}

/// Whether `s` and `t` hold the same characters.
pub fn chars_eq(s: &Vec<char>, t: &Vec<char>) -> (r: bool)
    ensures
        r == (s@ == t@),
{
    if s.len() != t.len() {
        return false;
    }
    let mut i: usize = 0;
    while i < s.len()
        invariant
            i <= s.len(),
            s.len() == t.len(),
            forall|j: int| 0 <= j < i ==> s@[j] == t@[j],
        decreases s.len() - i,
    {
        if s[i] != t[i] {
            return false;
        }
        i += 1;
    }
    assert(s@ =~= t@);
    true
}

/// Whether `s` holds exactly the characters of `lit`.
pub fn chars_eq_str(s: &Vec<char>, lit: &str) -> (r: bool)
    ensures
        r == (s@ == lit@),
{
    let t = str_to_chars(lit);
    chars_eq(s, &t)
}

/// `str::trim` on characters.
pub fn trim_chars(s: &Vec<char>) -> (r: Vec<char>)
    ensures
        r@ == spec_trim(s@),
{
    let mut a: usize = 0;
    assert(s@.skip(0) =~= s@);
    while a < s.len() && is_whitespace(s[a])
        invariant
            a <= s.len(),
            spec_trim_start(s@) == spec_trim_start(s@.skip(a as int)),
        decreases s.len() - a,
    {
        assert(s@.skip(a as int).drop_first() =~= s@.skip(a + 1));
        a += 1;
    }
    let ghost st = s@.skip(a as int);
    assert(spec_trim_start(st) == st);
    let mut b: usize = s.len();
    while b > a && is_whitespace(s[b - 1])
        invariant
            a <= b <= s.len(),
            st == s@.skip(a as int),
            spec_trim_end(st) == spec_trim_end(s@.subrange(a as int, b as int)),
        decreases b,
    {
        assert(s@.subrange(a as int, b as int).drop_last() =~= s@.subrange(a as int, b - 1));
        b -= 1;
    }
    assert(spec_trim_end(s@.subrange(a as int, b as int)) == s@.subrange(a as int, b as int));
    let mut r: Vec<char> = Vec::new();
    let mut i: usize = a;
    while i < b
        invariant
            a <= i <= b <= s.len(),
            r@ == s@.subrange(a as int, i as int),
        decreases b - i,
    {
        r.push(s[i]);
        assert(s@.subrange(a as int, i + 1) =~= s@.subrange(a as int, i as int).push(s@[i as int]));
        i += 1;
    }
    assert(s@.skip(a as int) =~= s@.subrange(a as int, s.len() as int));
    r
}

/// `str::trim_start` on characters.
pub fn trim_start_chars(s: &Vec<char>) -> (r: Vec<char>)
    ensures
        r@ == spec_trim_start(s@),
{
    let mut a: usize = 0;
    assert(s@.skip(0) =~= s@);
    while a < s.len() && is_whitespace(s[a])
        invariant
            a <= s.len(),
            spec_trim_start(s@) == spec_trim_start(s@.skip(a as int)),
        decreases s.len() - a,
    {
        assert(s@.skip(a as int).drop_first() =~= s@.skip(a + 1));
        a += 1;
    }
    let mut r: Vec<char> = Vec::new();
    let mut i: usize = a;
    while i < s.len()
        invariant
            a <= i <= s.len(),
            r@ == s@.subrange(a as int, i as int),
        decreases s.len() - i,
    {
        r.push(s[i]);
        assert(s@.subrange(a as int, i + 1) =~= s@.subrange(a as int, i as int).push(s@[i as int]));
        i += 1;
    }
    assert(s@.skip(a as int) =~= s@.subrange(a as int, s.len() as int));
    r
}

/// One carriage return removed from the end of `s`, if it has one.
pub open spec fn strip_one_cr(s: Seq<char>) -> Seq<char> {
    if s.len() > 0 && s.last() == '\r' {
        s.drop_last()
    } else {
        s
    }
}

/// `str::lines` (and `BufRead::lines` on the same text): the pieces between
/// newlines, each that a newline ends without one carriage return before
/// it, and the last piece only when it is not empty.
pub open spec fn spec_lines(s: Seq<char>) -> Seq<Seq<char>> {
    let parts = spec_split_char(s, '\n');
    let ended = parts.drop_last().map_values(|p: Seq<char>| strip_one_cr(p));
    if parts.last().len() == 0 {
        ended
    } else {
        ended.push(parts.last())
    }
}

/// The first `n` characters of `cs`.
pub fn copy_prefix(cs: &Vec<char>, n: usize) -> (r: Vec<char>)
    requires
        n <= cs.len(),
    ensures
        r@ == cs@.take(n as int),
{
    let mut r: Vec<char> = Vec::new();
    let mut i: usize = 0;
    while i < n
        invariant
            i <= n <= cs.len(),
            r@ == cs@.take(i as int),
        decreases n - i,
    {
        r.push(cs[i]);
        assert(cs@.take(i + 1) =~= cs@.take(i as int).push(cs@[i as int]));
        i += 1;
    }
    r
}

/// The lines of `cs` (see `spec_lines`).
pub fn lines(cs: &Vec<char>) -> (r: Vec<Vec<char>>)
    ensures
        r@.len() == spec_lines(cs@).len(),
        forall|i: int| 0 <= i < r@.len() ==> (#[trigger] r@[i])@ == spec_lines(cs@)[i],
{
    let parts = split_char(cs, '\n');
    let ghost sp = spec_split_char(cs@, '\n');
    assert(sp.len() >= 1);
    let n = parts.len();
    let mut out: Vec<Vec<char>> = Vec::new();
    let mut i: usize = 0;
    while i + 1 < n
        invariant
            n == parts@.len() == sp.len(),
            n >= 1,
            i + 1 <= n,
            forall|k: int| 0 <= k < n ==> (#[trigger] parts@[k])@ == sp[k],
            out@.len() == i,
            forall|k: int| 0 <= k < i ==> (#[trigger] out@[k])@ == strip_one_cr(sp[k]),
        decreases n - i,
    {
        let p = &parts[i];
        let keep = if p.len() > 0 && p[p.len() - 1] == '\r' {
            p.len() - 1
        } else {
            p.len()
        };
        let q = copy_prefix(p, keep);
        proof {
            assert(p@ == sp[i as int]);
            if p.len() > 0 && p@[p.len() - 1] == '\r' {
                assert(q@ =~= p@.drop_last());
            } else {
                assert(q@ =~= p@);
            }
        }
        out.push(q);
        i += 1;
    }
    let last = &parts[n - 1];
    if last.len() > 0 {
        let q = copy_prefix(last, last.len());
        assert(q@ =~= last@);
        out.push(q);
    }
    proof {
        let ended = sp.drop_last().map_values(|p: Seq<char>| strip_one_cr(p));
        assert(sp.last() == sp[n - 1]);
        assert forall|k: int| 0 <= k < out@.len() implies (#[trigger] out@[k])@ == spec_lines(cs@)[k] by {
            if k < n - 1 {
                assert(ended[k] == strip_one_cr(sp[k]));
            }
        }
    }
    out
}

} // verus!
