use vstd::prelude::*;

verus! {

/// `c` is white space, as `char::is_whitespace` tells it (Unicode `White_Space`).
pub open spec fn is_ws(c: char) -> bool {
    let n = c as int;
    n == 32 || (9 <= n <= 13) || n == 0x85 || n == 0xa0 || n == 0x1680 || (0x2000 <= n <= 0x200a)
        || n == 0x2028 || n == 0x2029 || n == 0x202f || n == 0x205f || n == 0x3000
}

/// `s` without its leading white space.
pub open spec fn trim_start(s: Seq<char>) -> Seq<char>
    decreases s.len(),
{
    if s.len() > 0 && is_ws(s[0]) { trim_start(s.drop_first()) } else { s }
}

/// `s` without its trailing white space.
pub open spec fn trim_end(s: Seq<char>) -> Seq<char>
    decreases s.len(),
{
    if s.len() > 0 && is_ws(s.last()) { trim_end(s.drop_last()) } else { s }
}

/// `s` without its leading and trailing white space.
pub open spec fn trim(s: Seq<char>) -> Seq<char> {
    trim_end(trim_start(s))
}

/// The pieces of `s` between single spaces, as `str::split(" ")` gives them.
pub open spec fn split_spaces(s: Seq<char>) -> Seq<Seq<char>>
    decreases s.len(),
{
    if s.len() == 0 {
        seq![Seq::<char>::empty()]
    } else {
        let r = split_spaces(s.drop_last());
        if s.last() == ' ' {
            r.push(Seq::<char>::empty())
        } else {
            r.update(r.len() - 1, r.last().push(s.last()))
        }
    }
}

/// `c` is an ASCII digit.
pub open spec fn is_digit(c: char) -> bool {
    48 <= c as int <= 57
}

/// The value of a sequence of decimal digits.
pub open spec fn digits_val(d: Seq<char>) -> int
    decreases d.len(),
{
    if d.len() == 0 { 0 } else { digits_val(d.drop_last()) * 10 + (d.last() as int - 48) }
}

/// Every character of `d` is an ASCII digit.
pub open spec fn all_digits(d: Seq<char>) -> bool {
    forall|k: int| 0 <= k < d.len() ==> is_digit(#[trigger] d[k])
}

/// The `i32` written in `s` as `str::parse::<i32>` reads it: an optional `+` or `-`, then
/// one digit or more, the value in range.
pub open spec fn parse_int(s: Seq<char>) -> Option<int> {
    if s.len() == 0 {
        None
    } else {
        let neg = s[0] == '-';
        let d = if s[0] == '-' || s[0] == '+' { s.drop_first() } else { s };
        if d.len() == 0 || !all_digits(d) {
            None
        } else {
            let v = if neg { -digits_val(d) } else { digits_val(d) };
            if i32::MIN <= v <= i32::MAX { Some(v) } else { None }
        }
    }
}

/// A field of an input line: an `i32` amid white space.
pub open spec fn field(s: Seq<char>) -> Option<int> {
    parse_int(trim(s))
}

/// The views of a sequence of character vectors.
pub open spec fn char_views(v: Seq<Vec<char>>) -> Seq<Seq<char>> {
    Seq::new(v.len(), |k: int| v[k]@)
}

/// The characters of a string.
pub fn chars_of(s: &str) -> (r: Vec<char>)
    ensures
        r@ == s@,
{
    let n = s.unicode_len();
    let mut r: Vec<char> = Vec::new();
    let mut i: usize = 0;
    while i < n
        invariant
            n == s@.len(),
            i <= n,
            r@ == s@.take(i as int),
        decreases n - i,
    {
        r.push(s.get_char(i));
        assert(s@.take(i + 1) == s@.take(i as int).push(s@[i as int]));
        i = i + 1;
    }
    assert(s@.take(n as int) == s@);
    r
}

/// The characters of `cs` hold the text `lit`.
pub fn same_text(cs: &Vec<char>, lit: &str) -> (b: bool)
    ensures
        b == (cs@ == lit@),
{
    let n = lit.unicode_len();
    if n != cs.len() {
        return false;
    }
    let mut i: usize = 0;
    while i < n
        invariant
            n == lit@.len(),
            n == cs@.len(),
            i <= n,
            forall|k: int| 0 <= k < i ==> cs@[k] == lit@[k],
        decreases n - i,
    {
        if cs[i] != lit.get_char(i) {
            return false;
        }
        i = i + 1;
    }
    assert(cs@ == lit@);
    true
}

fn is_ws_exec(c: char) -> (b: bool)
    ensures
        b == is_ws(c),
{
    let n = c as u32;
    n == 32 || (9 <= n && n <= 13) || n == 0x85 || n == 0xa0 || n == 0x1680 || (0x2000 <= n && n <= 0x200a)
        || n == 0x2028 || n == 0x2029 || n == 0x202f || n == 0x205f || n == 0x3000
}

/// The bounds of `cs` once trimmed.
fn trim_bounds(cs: &Vec<char>) -> (r: (usize, usize))
    ensures
        r.0 <= r.1 <= cs@.len(),
        cs@.subrange(r.0 as int, r.1 as int) == trim(cs@),
{
    let n = cs.len();
    let mut a: usize = 0;
    assert(cs@.subrange(0, n as int) == cs@);
    while a < n && is_ws_exec(cs[a])
        invariant
            n == cs@.len(),
            a <= n,
            trim_start(cs@) == trim_start(cs@.subrange(a as int, n as int)),
        decreases n - a,
    {
        assert(cs@.subrange(a as int, n as int).drop_first() == cs@.subrange(a + 1, n as int));
        a = a + 1;
    }
    let ghost t = cs@.subrange(a as int, n as int);
    assert(trim_start(t) == t);
    let mut b: usize = n;
    while b > a && is_ws_exec(cs[b - 1])
        invariant
            n == cs@.len(),
            a <= b <= n,
            t == cs@.subrange(a as int, n as int),
            trim_end(t) == trim_end(cs@.subrange(a as int, b as int)),
        decreases b - a,
    {
        assert(cs@.subrange(a as int, b as int).drop_last() == cs@.subrange(a as int, b - 1));
        b = b - 1;
    }
    (a, b)
}

proof fn lemma_digits_grow(d: Seq<char>, k: int)
    requires
        all_digits(d),
        0 <= k <= d.len(),
    ensures
        digits_val(d.take(k)) <= digits_val(d),
        0 <= digits_val(d.take(k)),
    decreases d.len() - k,
{
    if k < d.len() {
        lemma_digits_grow(d, k + 1);
        assert(d.take(k + 1).drop_last() == d.take(k));
        assert(is_digit(d[k]));
    } else {
        assert(d.take(k) == d);
        lemma_digits_nonneg(d);
    }
}

proof fn lemma_digits_nonneg(d: Seq<char>)
    requires
        all_digits(d),
    ensures
        0 <= digits_val(d),
    decreases d.len(),
{
    if d.len() > 0 {
        assert(all_digits(d.drop_last()));
        assert(is_digit(d[d.len() - 1]));
        lemma_digits_nonneg(d.drop_last());
    }
}

/// The `i32` written in `cs` amid white space, as `parse_input` reads a field.
pub fn parse_input(cs: &Vec<char>) -> (r: Option<i32>)
    ensures
        match r {
            Some(v) => field(cs@) == Some(v as int),
            None => field(cs@) is None,
        },
{
    let (a, b) = trim_bounds(cs);
    let ghost s = cs@.subrange(a as int, b as int);
    if a == b {
        return None;
    }
    let first = cs[a];
    let neg = first == '-';
    let start = if first == '-' || first == '+' { a + 1 } else { a };
    let ghost d = cs@.subrange(start as int, b as int);
    assert(d == if s[0] == '-' || s[0] == '+' { s.drop_first() } else { s });
    if start == b {
        return None;
    }
    let mut acc: i64 = 0;
    let mut i: usize = start;
    while i < b
        invariant
            a <= start <= i <= b <= cs@.len(),
            start < b,
            s == cs@.subrange(a as int, b as int),
            s == trim(cs@),
            s.len() > 0,
            neg == (s[0] == '-'),
            d == (if s[0] == '-' || s[0] == '+' { s.drop_first() } else { s }),
            d == cs@.subrange(start as int, b as int),
            forall|k: int| start <= k < i ==> is_digit(#[trigger] cs@[k]),
            acc == digits_val(d.take(i - start)),
            0 <= acc <= 2147483648,
        decreases b - i,
    {
        let c = cs[i];
        if !('0' <= c && c <= '9') {
            assert(!is_digit(d[i - start]));
            return None;
        }
        assert(d.take(i - start + 1).drop_last() == d.take(i - start));
        assert(d.take(i - start + 1).last() == c);
        let v = acc * 10 + (c as u32 - 48) as i64;
        if v > 2147483648 {
            proof {
                let j = i - start + 1;
                assert forall|k: int| 0 <= k < j implies is_digit(#[trigger] d.take(j)[k]) by {
                    assert(d.take(j)[k] == cs@[start + k]);
                }
                // Digits beyond cannot lower the value.
                if all_digits(d) {
                    lemma_digits_grow(d, j);
                }
            }
            return None;
        }
        acc = v;
        i = i + 1;
    }
    assert(d.take(b - start) == d);
    assert(all_digits(d));
    if neg {
        if acc > 2147483648 {
            return None;
        }
        Some((0 - acc) as i32)
    } else {
        if acc > 2147483647 {
            return None;
        }
        Some(acc as i32)
    }
}

/// The pieces of `cs` between single spaces.
pub fn split_chars(cs: &Vec<char>) -> (r: Vec<Vec<char>>)
    ensures
        char_views(r@) == split_spaces(cs@),
{
    let mut r: Vec<Vec<char>> = Vec::new();
    let mut cur: Vec<char> = Vec::new();
    let mut i: usize = 0;
    while i < cs.len()
        invariant
            i <= cs@.len(),
            char_views(r@).push(cur@) == split_spaces(cs@.take(i as int)),
        decreases cs@.len() - i,
    {
        let c = cs[i];
        assert(cs@.take(i + 1).drop_last() == cs@.take(i as int));
        assert(cs@.take(i + 1).last() == c);
        let ghost prev = split_spaces(cs@.take(i as int));
        if c == ' ' {
            let done = cur;
            r.push(done);
            cur = Vec::new();
            assert(char_views(r@).push(cur@) =~= prev.push(Seq::<char>::empty()));
        } else {
            cur.push(c);
            assert(char_views(r@).push(cur@) =~= prev.update(prev.len() - 1, prev.last().push(c)));
        }
        i = i + 1;
    }
    assert(cs@.take(cs@.len() as int) == cs@);
    r.push(cur);
    r
}

} // verus!

verus! {

/// `cs` with its leading and trailing white space taken off.
pub fn trimmed(cs: &Vec<char>) -> (r: Vec<char>)
    ensures
        r@ == trim(cs@),
{
    let (a, b) = trim_bounds(cs);
    copy_range(cs, a, b)
}

/// The characters of `cs` from `a` to `b`.
pub fn copy_range(cs: &Vec<char>, a: usize, b: usize) -> (r: Vec<char>)
    requires
        a <= b <= cs@.len(),
    ensures
        r@ == cs@.subrange(a as int, b as int),
{
    let mut r: Vec<char> = Vec::new();
    let mut i: usize = a;
    while i < b
        invariant
            a <= i <= b <= cs@.len(),
            r@ == cs@.subrange(a as int, i as int),
        decreases b - i,
    {
        r.push(cs[i]);
        assert(cs@.subrange(a as int, i + 1) == cs@.subrange(a as int, i as int).push(cs@[i as int]));
        i = i + 1;
    }
    r
}

/// `s` without its leading newlines.
pub open spec fn strip_nl_start(s: Seq<char>) -> Seq<char>
    decreases s.len(),
{
    if s.len() > 0 && s[0] == '\n' { strip_nl_start(s.drop_first()) } else { s }
}

/// `s` without its trailing newlines.
pub open spec fn strip_nl_end(s: Seq<char>) -> Seq<char>
    decreases s.len(),
{
    if s.len() > 0 && s.last() == '\n' { strip_nl_end(s.drop_last()) } else { s }
}

/// `s` without its leading and trailing newlines, as `trim_matches('\n')` leaves it.
pub open spec fn strip_nl(s: Seq<char>) -> Seq<char> {
    strip_nl_end(strip_nl_start(s))
}

/// `cs` with its leading and trailing newlines taken off.
pub fn strip_newlines(cs: &Vec<char>) -> (r: Vec<char>)
    ensures
        r@ == strip_nl(cs@),
{
    let n = cs.len();
    let mut a: usize = 0;
    assert(cs@.subrange(0, n as int) == cs@);
    while a < n && cs[a] == '\n'
        invariant
            n == cs@.len(),
            a <= n,
            strip_nl_start(cs@) == strip_nl_start(cs@.subrange(a as int, n as int)),
        decreases n - a,
    {
        assert(cs@.subrange(a as int, n as int).drop_first() == cs@.subrange(a + 1, n as int));
        a = a + 1;
    }
    let ghost t = cs@.subrange(a as int, n as int);
    assert(strip_nl_start(t) == t);
    let mut b: usize = n;
    while b > a && cs[b - 1] == '\n'
        invariant
            n == cs@.len(),
            a <= b <= n,
            t == cs@.subrange(a as int, n as int),
            strip_nl_end(t) == strip_nl_end(cs@.subrange(a as int, b as int)),
        decreases b - a,
    {
        assert(cs@.subrange(a as int, b as int).drop_last() == cs@.subrange(a as int, b - 1));
        b = b - 1;
    }
    copy_range(cs, a, b)
}

/// The fields of `toks` from `lo` to `hi` hold `i32`s.
pub open spec fn fields_ok(toks: Seq<Seq<char>>, lo: int, hi: int) -> bool {
    &&& hi <= toks.len()
    &&& forall|k: int| lo <= k < hi ==> (#[trigger] field(toks[k])) is Some
}

/// The `i32` of field `k` (meant for `fields_ok`).
pub open spec fn fval(toks: Seq<Seq<char>>, k: int) -> i32 {
    field(toks[k])->0 as i32
}

/// The `i32` of field `k` of `toks`.
pub fn field_at(toks: &Vec<Vec<char>>, k: usize) -> (v: i32)
    requires
        k < toks@.len(),
        field(toks@[k as int]@) is Some,
    ensures
        v == field(toks@[k as int]@)->0,
{
    match parse_input(&toks[k]) {
        Some(v) => v,
        None => 0,
    }
}

} // verus!
