//! A character-level model of the text operations the launcher relies on.

use vstd::prelude::*;

verus! {

/// Appends one character to a `String` (`String::push`).
#[verifier::external_body]
pub(crate) fn push_char(s: &mut String, c: char)
    ensures
        final(s)@ == old(s)@.push(c),
{
    s.push(c);
}

/// The characters of `s`, in order.
pub fn str_chars(s: &str) -> (res: Vec<char>)
    ensures
        res@ == s@,
{
    let mut res: Vec<char> = Vec::new();
    for c in it: s.chars()
        invariant
            res@ == it.seq().take(it.index() as int),
            it.seq() == s@,
    {
        assert(c == it.seq()[it.index() as int]);
        res.push(c);
    }
    res
}

/// A `String` made of the characters `cs[lo..hi]`.
pub fn chars_to_string(cs: &Vec<char>, lo: usize, hi: usize) -> (res: String)
    requires
        lo <= hi <= cs.len(),
    ensures
        res@ == cs@.subrange(lo as int, hi as int),
{
    let mut res = String::new();
    let mut i = lo;
    while i < hi
        invariant
            lo <= i <= hi <= cs.len(),
            res@ == cs@.subrange(lo as int, i as int),
        decreases hi - i,
    {
        push_char(&mut res, cs[i]);
        assert(cs@.subrange(lo as int, i + 1) =~= cs@.subrange(lo as int, i as int).push(cs@[i as int]));
        i = i + 1;
    }
    res
}

} // verus!

verus! {

/// Whether `c` has the Unicode `White_Space` property, the set that
/// `char::is_whitespace` and `str::trim` use.
pub open spec fn is_space(c: char) -> bool {
    let u = c as u32;
    ||| 0x9 <= u <= 0xD
    ||| u == 0x20
    ||| u == 0x85
    ||| u == 0xA0
    ||| u == 0x1680
    ||| 0x2000 <= u <= 0x200A
    ||| u == 0x2028
    ||| u == 0x2029
    ||| u == 0x202F
    ||| u == 0x205F
    ||| u == 0x3000
}

pub fn is_space_char(c: char) -> (b: bool)
    ensures
        b == is_space(c),
{
    let u = c as u32;
    (0x9 <= u && u <= 0xD) || u == 0x20 || u == 0x85 || u == 0xA0 || u == 0x1680 || (0x2000 <= u
        && u <= 0x200A) || u == 0x2028 || u == 0x2029 || u == 0x202F || u == 0x205F || u == 0x3000
}

/// `s` without its leading white space.
pub open spec fn trim_start(s: Seq<char>) -> Seq<char>
    decreases s.len(),
{
    if s.len() > 0 && is_space(s[0]) {
        trim_start(s.drop_first())
    } else {
        s
    }
}

/// `s` without its trailing white space.
pub open spec fn trim_end(s: Seq<char>) -> Seq<char>
    decreases s.len(),
{
    if s.len() > 0 && is_space(s.last()) {
        trim_end(s.drop_last())
    } else {
        s
    }
}

/// `str::trim`: `s` without white space at either end.
pub open spec fn trim(s: Seq<char>) -> Seq<char> {
    trim_end(trim_start(s))
}

/// The bounds of `trim(cs[lo..hi])` inside `cs`.
pub fn trim_range(cs: &Vec<char>, lo: usize, hi: usize) -> (r: (usize, usize))
    requires
        lo <= hi <= cs.len(),
    ensures
        lo <= r.0 <= r.1 <= hi,
        cs@.subrange(r.0 as int, r.1 as int) == trim(cs@.subrange(lo as int, hi as int)),
{
    let mut a = lo;
    while a < hi && is_space_char(cs[a])
        invariant
            lo <= a <= hi <= cs.len(),
            trim_start(cs@.subrange(lo as int, hi as int)) == trim_start(
                cs@.subrange(a as int, hi as int),
            ),
        decreases hi - a,
    {
        assert(cs@.subrange(a as int, hi as int).drop_first() =~= cs@.subrange(
            a + 1,
            hi as int,
        ));
        a = a + 1;
    }
    let mut b = hi;
    while b > a && is_space_char(cs[b - 1])
        invariant
            lo <= a <= b <= hi <= cs.len(),
            trim_end(cs@.subrange(a as int, hi as int)) == trim_end(
                cs@.subrange(a as int, b as int),
            ),
        decreases b - a,
    {
        assert(cs@.subrange(a as int, b as int).drop_last() =~= cs@.subrange(
            a as int,
            b - 1,
        ));
        b = b - 1;
    }
    (a, b)
}

/// The position of the first `c` in `s`, or `-1` where there is none.
pub open spec fn index_of(s: Seq<char>, c: char) -> int
    decreases s.len(),
{
    if s.len() == 0 {
        -1
    } else if s[0] == c {
        0
    } else {
        let r = index_of(s.drop_first(), c);
        if r < 0 {
            -1
        } else {
            r + 1
        }
    }
}

pub proof fn lemma_index_of(s: Seq<char>, c: char)
    ensures
        -1 <= index_of(s, c) < s.len(),
        index_of(s, c) >= 0 ==> s[index_of(s, c)] == c,
        forall|j: int| 0 <= j < index_of(s, c) ==> s[j] != c,
        index_of(s, c) < 0 ==> forall|j: int| 0 <= j < s.len() ==> s[j] != c,
    decreases s.len(),
{
    if s.len() > 0 && s[0] != c {
        lemma_index_of(s.drop_first(), c);
        assert forall|j: int| 0 < j < s.len() implies s[j] == s.drop_first()[j - 1] by {}
    }
}

pub proof fn lemma_index_of_at(s: Seq<char>, c: char, i: int)
    requires
        0 <= i < s.len(),
        s[i] == c,
        forall|j: int| 0 <= j < i ==> s[j] != c,
    ensures
        index_of(s, c) == i,
    decreases s.len(),
{
    if i > 0 {
        lemma_index_of_at(s.drop_first(), c, i - 1);
    }
}

pub proof fn lemma_index_of_none(s: Seq<char>, c: char)
    requires
        forall|j: int| 0 <= j < s.len() ==> s[j] != c,
    ensures
        index_of(s, c) == -1,
    decreases s.len(),
{
    if s.len() > 0 {
        lemma_index_of_none(s.drop_first(), c);
    }
}

/// The first `c` in `cs[lo..hi]`, as a position in `cs`.
pub fn find_char(cs: &Vec<char>, lo: usize, hi: usize, c: char) -> (r: Option<usize>)
    requires
        lo <= hi <= cs.len(),
    ensures
        match r {
            Some(i) => lo <= i < hi && index_of(cs@.subrange(lo as int, hi as int), c) == i - lo,
            None => index_of(cs@.subrange(lo as int, hi as int), c) == -1,
        },
{
    let mut i = lo;
    while i < hi
        invariant
            lo <= i <= hi <= cs.len(),
            forall|j: int| lo <= j < i ==> cs@[j] != c,
        decreases hi - i,
    {
        if cs[i] == c {
            proof {
                lemma_index_of_at(cs@.subrange(lo as int, hi as int), c, i - lo);
            }
            return Some(i);
        }
        i = i + 1;
    }
    proof {
        lemma_index_of_none(cs@.subrange(lo as int, hi as int), c);
    }
    None
}

} // verus!

verus! {

/// `str::split_once`: the text before and after the first `c`.
pub open spec fn split_once(s: Seq<char>, c: char) -> Option<(Seq<char>, Seq<char>)> {
    let i = index_of(s, c);
    if i < 0 {
        None
    } else {
        Some((s.take(i), s.skip(i + 1)))
    }
}

/// The lines of `s`: the pieces between line feeds, where a final line feed
/// ends the last line rather than starting an empty one (`str::lines`; the
/// carriage return that `lines` also drops before a line feed is white space,
/// and every reader here trims its lines).
pub open spec fn lines(s: Seq<char>) -> Seq<Seq<char>>
    decreases s.len(),
{
    if s.len() == 0 {
        seq![]
    } else {
        let i = index_of(s, '\n');
        if i < 0 {
            seq![s]
        } else {
            proof {
                lemma_index_of(s, '\n');
            }
            seq![s.take(i)] + lines(s.skip(i + 1))
        }
    }
}

/// The pieces of `s` between the occurrences of `c`, empty ones included
/// (`str::split`; on Unix `env::split_paths` splits at `:` this way).
pub open spec fn split_on(s: Seq<char>, c: char) -> Seq<Seq<char>>
    decreases s.len(),
{
    let i = index_of(s, c);
    if i < 0 {
        seq![s]
    } else {
        proof {
            lemma_index_of(s, c);
        }
        seq![s.take(i)] + split_on(s.skip(i + 1), c)
    }
}

/// Whether `cs[lo..hi]` is the text `lit`.
pub fn matches_literal(cs: &Vec<char>, lo: usize, hi: usize, lit: &str) -> (b: bool)
    requires
        lo <= hi <= cs.len(),
    ensures
        b == (cs@.subrange(lo as int, hi as int) == lit@),
{
    let l = str_chars(lit);
    if hi - lo != l.len() {
        return false;
    }
    let mut i: usize = 0;
    while i < l.len()
        invariant
            lo <= hi <= cs.len(),
            hi - lo == l.len(),
            l@ == lit@,
            i <= l.len(),
            forall|j: int| 0 <= j < i ==> cs@[lo + j] == l@[j],
        decreases l.len() - i,
    {
        if cs[lo + i] != l[i] {
            assert(cs@.subrange(lo as int, hi as int)[i as int] != lit@[i as int]);
            return false;
        }
        i = i + 1;
    }
    assert(cs@.subrange(lo as int, hi as int) =~= lit@);
    true
}

/// The bounds in `cs` of each of its lines, in order.
pub fn line_ranges(cs: &Vec<char>) -> (r: Vec<(usize, usize)>)
    ensures
        r.len() == lines(cs@).len(),
        forall|k: int|
            #![trigger r@[k]]
            0 <= k < r.len() ==> r@[k].0 <= r@[k].1 <= cs.len() && cs@.subrange(
                r@[k].0 as int,
                r@[k].1 as int,
            ) == lines(cs@)[k],
{
    let n = cs.len();
    let mut r: Vec<(usize, usize)> = Vec::new();
    let ghost mut done: Seq<Seq<char>> = seq![];
    let mut pos: usize = 0;
    assert(cs@.skip(0) =~= cs@);
    while pos < n
        invariant
            n == cs.len(),
            pos <= n,
            lines(cs@) == done + lines(cs@.skip(pos as int)),
            done.len() == r.len(),
            forall|k: int|
                #![trigger r@[k]]
                0 <= k < r.len() ==> r@[k].0 <= r@[k].1 <= cs.len() && cs@.subrange(
                    r@[k].0 as int,
                    r@[k].1 as int,
                ) == done[k],
        decreases n - pos,
    {
        let ghost rest = cs@.skip(pos as int);
        let ghost old_done = done;
        assert(cs@.subrange(pos as int, n as int) =~= rest);
        match find_char(cs, pos, n, '\n') {
            Some(i) => {
                assert(rest.take(i - pos) =~= cs@.subrange(pos as int, i as int));
                assert(rest.skip(i - pos + 1) =~= cs@.skip(i + 1));
                r.push((pos, i));
                proof {
                    done = done.push(cs@.subrange(pos as int, i as int));
                    assert(old_done + (seq![cs@.subrange(pos as int, i as int)] + lines(
                        cs@.skip(i + 1),
                    )) =~= done + lines(cs@.skip(i + 1)));
                }
                pos = i + 1;
            },
            None => {
                r.push((pos, n));
                proof {
                    done = done.push(rest);
                    assert(cs@.skip(n as int) =~= Seq::<char>::empty());
                    assert(old_done + seq![rest] =~= done + lines(cs@.skip(n as int)));
                }
                pos = n;
            },
        }
        assert forall|k: int| 0 <= k < r.len() - 1 implies #[trigger] done[k] == old_done[k] by {}
    }
    assert(cs@.skip(n as int) =~= Seq::<char>::empty());
    assert(done + lines(cs@.skip(n as int)) =~= done);
    r
}

} // verus!

verus! {

pub open spec fn is_digit(c: char) -> bool {
    '0' <= c <= '9'
}

pub open spec fn digit_value(c: char) -> int {
    c as int - '0' as int
}

pub open spec fn all_digits(s: Seq<char>) -> bool {
    forall|i: int| 0 <= i < s.len() ==> is_digit(#[trigger] s[i])
}

/// The number that the decimal digits `s` spell.
pub open spec fn digits_value(s: Seq<char>) -> int
    decreases s.len(),
{
    if s.len() == 0 {
        0
    } else {
        digits_value(s.drop_last()) * 10 + digit_value(s.last())
    }
}

/// `s` without one leading `+`, the sign that `from_str` accepts for unsigned integers.
pub open spec fn unsigned_digits(s: Seq<char>) -> Seq<char> {
    if s.len() > 0 && s[0] == '+' {
        s.drop_first()
    } else {
        s
    }
}

/// `u8::from_str` / `u32::from_str` for an unsigned type whose largest value is
/// `max`: an optional `+`, then at least one decimal digit, spelling at most `max`.
pub open spec fn parse_unsigned(s: Seq<char>, max: int) -> Option<int> {
    let d = unsigned_digits(s);
    if d.len() > 0 && all_digits(d) && digits_value(d) <= max {
        Some(digits_value(d))
    } else {
        None
    }
}

proof fn lemma_digits_value_grows(s: Seq<char>, k: int)
    requires
        all_digits(s),
        0 <= k <= s.len(),
    ensures
        0 <= digits_value(s.take(k)) <= digits_value(s),
    decreases s.len(),
{
    if s.len() > 0 {
        if k == s.len() {
            assert(s.take(k) =~= s);
            lemma_digits_value_grows(s.drop_last(), k - 1);
            assert(s.drop_last().take(k - 1) =~= s.drop_last());
        } else {
            lemma_digits_value_grows(s.drop_last(), k);
            assert(s.drop_last().take(k) =~= s.take(k));
            lemma_digits_value_grows(s.drop_last(), s.len() - 1);
            assert(s.drop_last().take(s.len() - 1) =~= s.drop_last());
        }
    } else {
        assert(s.take(k) =~= s);
    }
}

/// Reads `cs[lo..hi]` as an unsigned decimal number no greater than `max`.
pub fn parse_unsigned_range(cs: &Vec<char>, lo: usize, hi: usize, max: u32) -> (r: Option<u32>)
    requires
        lo <= hi <= cs.len(),
    ensures
        match parse_unsigned(cs@.subrange(lo as int, hi as int), max as int) {
            Some(v) => r == Some(v as u32),
            None => r is None,
        },
        r matches Some(v) ==> v <= max && parse_unsigned(
            cs@.subrange(lo as int, hi as int),
            max as int,
        ) == Some(v as int),
{
    let ghost s = cs@.subrange(lo as int, hi as int);
    let mut start = lo;
    if lo < hi && cs[lo] == '+' {
        start = lo + 1;
    }
    let ghost d = cs@.subrange(start as int, hi as int);
    assert(unsigned_digits(s) =~= d);
    if start == hi {
        return None;
    }
    let mut val: u64 = 0;
    let mut i = start;
    while i < hi
        invariant
            lo <= start <= i <= hi <= cs.len(),
            s == cs@.subrange(lo as int, hi as int),
            d == cs@.subrange(start as int, hi as int),
            unsigned_digits(s) == d,
            all_digits(d.take(i - start)),
            val == digits_value(d.take(i - start)),
            val <= max,
        decreases hi - i,
    {
        let c = cs[i];
        assert(d.take(i - start + 1).drop_last() =~= d.take(i - start));
        assert(d[i - start] == c);
        if !('0' <= c && c <= '9') {
            return None;
        }
        let dv = (c as u32 - '0' as u32) as u64;
        let next = val * 10 + dv;
        if next > max as u64 {
            proof {
                if all_digits(d) {
                    lemma_digits_value_grows(d, i - start + 1);
                }
            }
            return None;
        }
        val = next;
        i = i + 1;
    }
    assert(d.take(hi - start) =~= d);
    Some(val as u32)
}

pub open spec fn digit_char(d: int) -> char {
    (d + '0' as int) as char
}

/// The decimal digits of `n`, without leading zeros (`u8::to_string`).
pub open spec fn decimal(n: nat) -> Seq<char>
    decreases n,
{
    if n < 10 {
        seq![digit_char(n as int)]
    } else {
        decimal(n / 10).push(digit_char((n % 10) as int))
    }
}

pub proof fn lemma_decimal_parses(n: nat)
    ensures
        decimal(n).len() > 0,
        all_digits(decimal(n)),
        digits_value(decimal(n)) == n,
        decimal(n)[0] != '+',
    decreases n,
{
    assert(digit_char((n % 10) as int) as int == (n % 10) + 48);
    if n >= 10 {
        lemma_decimal_parses(n / 10);
        assert(n == (n / 10) * 10 + n % 10);
        let s = decimal(n);
        assert(s.drop_last() =~= decimal(n / 10));
        assert(s.last() == digit_char((n % 10) as int));
        assert(digits_value(s) == digits_value(decimal(n / 10)) * 10 + (n % 10));
        assert(all_digits(s)) by {
            assert forall|i: int| 0 <= i < s.len() implies is_digit(#[trigger] s[i]) by {
                if i < s.len() - 1 {
                    assert(s[i] == decimal(n / 10)[i]);
                }
            }
        }
    } else {
        assert(decimal(n).drop_last() =~= Seq::<char>::empty());
        assert(digits_value(decimal(n)) == digits_value(Seq::<char>::empty()) * 10 + digit_value(
            digit_char(n as int),
        ));
    }
}

fn digit_to_char(d: u8) -> (c: char)
    requires
        d < 10,
    ensures
        c == digit_char(d as int),
{
    (d + 48) as char
}

/// The decimal text of `n`.
pub fn u8_decimal(n: u8) -> (s: String)
    ensures
        s@ == decimal(n as nat),
{
    let mut s = String::new();
    if n >= 100 {
        push_char(&mut s, digit_to_char(n / 100));
    }
    if n >= 10 {
        push_char(&mut s, digit_to_char((n / 10) % 10));
    }
    push_char(&mut s, digit_to_char(n % 10));
    proof {
        reveal_with_fuel(decimal, 3);
        if n >= 100 {
            assert(decimal(n as nat / 10 / 10) =~= seq![digit_char(n as int / 100)]);
        }
    }
    assert(s@ =~= decimal(n as nat));
    s
}

} // verus!

verus! {

/// The bounds in `cs` of each piece between the occurrences of `c`.
pub fn piece_ranges(cs: &Vec<char>, c: char) -> (r: Vec<(usize, usize)>)
    ensures
        r.len() == split_on(cs@, c).len(),
        forall|k: int|
            #![trigger r@[k]]
            0 <= k < r.len() ==> r@[k].0 <= r@[k].1 <= cs.len() && cs@.subrange(
                r@[k].0 as int,
                r@[k].1 as int,
            ) == split_on(cs@, c)[k],
{
    let n = cs.len();
    let mut r: Vec<(usize, usize)> = Vec::new();
    let ghost mut done: Seq<Seq<char>> = seq![];
    let mut pos: usize = 0;
    assert(cs@.skip(0) =~= cs@);
    loop
        invariant_except_break
            n == cs.len(),
            pos <= n,
            split_on(cs@, c) == done + split_on(cs@.skip(pos as int), c),
            done.len() == r.len(),
            forall|k: int|
                #![trigger r@[k]]
                0 <= k < r.len() ==> r@[k].0 <= r@[k].1 <= cs.len() && cs@.subrange(
                    r@[k].0 as int,
                    r@[k].1 as int,
                ) == done[k],
        ensures
            split_on(cs@, c) == done,
            done.len() == r.len(),
            forall|k: int|
                #![trigger r@[k]]
                0 <= k < r.len() ==> r@[k].0 <= r@[k].1 <= cs.len() && cs@.subrange(
                    r@[k].0 as int,
                    r@[k].1 as int,
                ) == done[k],
        decreases n - pos,
    {
        let ghost rest = cs@.skip(pos as int);
        let ghost old_done = done;
        assert(cs@.subrange(pos as int, n as int) =~= rest);
        match find_char(cs, pos, n, c) {
            Some(i) => {
                assert(rest.take(i - pos) =~= cs@.subrange(pos as int, i as int));
                assert(rest.skip(i - pos + 1) =~= cs@.skip(i + 1));
                r.push((pos, i));
                proof {
                    done = done.push(cs@.subrange(pos as int, i as int));
                    assert(old_done + (seq![cs@.subrange(pos as int, i as int)] + split_on(
                        cs@.skip(i + 1),
                        c,
                    )) =~= done + split_on(cs@.skip(i + 1), c));
                    assert forall|k: int| 0 <= k < r.len() - 1 implies #[trigger] done[k]
                        == old_done[k] by {}
                }
                pos = i + 1;
            },
            None => {
                r.push((pos, n));
                proof {
                    done = done.push(rest);
                    assert(old_done + seq![rest] =~= done);
                    assert forall|k: int| 0 <= k < r.len() - 1 implies #[trigger] done[k]
                        == old_done[k] by {}
                }
                break;
            },
        }
    }
    r
}

/// `s` split at every `c`, each piece as a `String`.
pub fn split_pieces(s: &str, c: char) -> (r: Vec<String>)
    ensures
        r.len() == split_on(s@, c).len(),
        forall|k: int| 0 <= k < r.len() ==> #[trigger] r@[k]@ == split_on(s@, c)[k],
{
    let cs = str_chars(s);
    let ranges = piece_ranges(&cs, c);
    let mut r: Vec<String> = Vec::new();
    let mut k: usize = 0;
    while k < ranges.len()
        invariant
            cs@ == s@,
            ranges.len() == split_on(s@, c).len(),
            forall|j: int|
                #![trigger ranges@[j]]
                0 <= j < ranges.len() ==> ranges@[j].0 <= ranges@[j].1 <= cs.len()
                    && cs@.subrange(ranges@[j].0 as int, ranges@[j].1 as int) == split_on(
                    cs@,
                    c,
                )[j],
            k <= ranges.len(),
            r.len() == k,
            forall|j: int| 0 <= j < k ==> #[trigger] r@[j]@ == split_on(s@, c)[j],
        decreases ranges.len() - k,
    {
        let (a, b) = ranges[k];
        r.push(chars_to_string(&cs, a, b));
        k = k + 1;
    }
    r
}

/// `PathBuf::push` on Unix: a part that starts with `/` replaces the base;
/// otherwise it is appended, after a `/` where the base is not empty and does
/// not already end with one.
pub open spec fn path_join(base: Seq<char>, part: Seq<char>) -> Seq<char> {
    if part.len() > 0 && part[0] == '/' {
        part
    } else if base.len() == 0 || base.last() == '/' {
        base + part
    } else {
        base + seq!['/'] + part
    }
}

/// The path `part` relative to `base`, as `Path::join` forms it on Unix.
pub fn join_path(base: &str, part: &str) -> (r: String)
    ensures
        r@ == path_join(base@, part@),
{
    let bs = str_chars(base);
    let ps = str_chars(part);
    if ps.len() > 0 && ps[0] == '/' {
        return chars_to_string(&ps, 0, ps.len());
    }
    let mut r = chars_to_string(&bs, 0, bs.len());
    if bs.len() > 0 && bs[bs.len() - 1] != '/' {
        push_char(&mut r, '/');
    }
    let mut i: usize = 0;
    while i < ps.len()
        invariant
            ps@ == part@,
            bs@ == base@,
            !(part@.len() > 0 && part@[0] == '/'),
            i <= ps.len(),
            r@ == (if base@.len() == 0 || base@.last() == '/' {
                base@
            } else {
                base@ + seq!['/']
            }) + ps@.take(i as int),
        decreases ps.len() - i,
    {
        push_char(&mut r, ps[i]);
        assert(ps@.take(i + 1) =~= ps@.take(i as int).push(ps@[i as int]));
        i = i + 1;
    }
    assert(ps@.take(ps.len() as int) =~= ps@);
    assert(bs@.subrange(0, bs.len() as int) =~= bs@);
    r
}

} // verus!
