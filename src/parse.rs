use vstd::prelude::*;
use vstd::string::*;

verus! {

/// Some text of a list was not an `i32` numeral.
#[derive(Debug, Clone, Copy, PartialEq, Eq, Structural)]
pub struct ParseError;

pub open spec fn is_digit(c: char) -> bool {
    '0' <= c && c <= '9'
}

pub open spec fn digit_value(c: char) -> int {
    (c as u32) as int - ('0' as u32) as int
}

pub open spec fn all_digits(s: Seq<char>) -> bool {
    s.len() > 0 && forall|i: int| 0 <= i < s.len() ==> is_digit(#[trigger] s[i])
}

/// The number that a string of decimal digits denotes.
pub open spec fn digits_value(s: Seq<char>) -> int
    decreases s.len(),
{
    if s.len() == 0 {
        0
    } else {
        digits_value(s.drop_last()) * 10 + digit_value(s.last())
    }
}

/// The number of an optional `+` or `-` followed by one or more digits.
pub open spec fn numeral_value(s: Seq<char>) -> Option<int> {
    if s.len() > 0 && (s[0] == '-' || s[0] == '+') {
        if all_digits(s.drop_first()) {
            if s[0] == '-' {
                Some(-digits_value(s.drop_first()))
            } else {
                Some(digits_value(s.drop_first()))
            }
        } else {
            None
        }
    } else if all_digits(s) {
        Some(digits_value(s))
    } else {
        None
    }
}

/// The `i32` that `s` spells, if it is a numeral within range.
pub open spec fn parse_i32(s: Seq<char>) -> Option<i32> {
    let n = numeral_value(s);
    if n is Some && i32::MIN <= n->0 <= i32::MAX {
        Some(n->0 as i32)
    } else {
        None
    }
}

/// The pieces of `s` between commas; one more than there are commas.
pub open spec fn fields(s: Seq<char>) -> Seq<Seq<char>>
    decreases s.len(),
{
    if s.len() == 0 {
        seq![Seq::empty()]
    } else {
        let f = fields(s.drop_last());
        if s.last() == ',' {
            f.push(Seq::empty())
        } else {
            f.update(f.len() - 1, f.last().push(s.last()))
        }
    }
}

/// The numbers of all pieces, when every piece is a numeral within range.
pub open spec fn parse_all(fs: Seq<Seq<char>>) -> Option<Seq<i32>> {
    if forall|k: int| 0 <= k < fs.len() ==> (#[trigger] parse_i32(fs[k])) is Some {
        Some(Seq::new(fs.len(), |k: int| parse_i32(fs[k])->0))
    } else {
        None
    }
}

/// The numbers of a comma-separated list, if every item is an `i32` numeral.
pub open spec fn parse_list(s: Seq<char>) -> Option<Seq<i32>> {
    parse_all(fields(s))
}

/// A text has at least one piece, empty or not.
pub proof fn lemma_fields_nonempty(s: Seq<char>)
    ensures
        fields(s).len() >= 1,
    decreases s.len(),
{
    if s.len() > 0 {
        lemma_fields_nonempty(s.drop_last());
    }
}

/// The pieces before the last one of a prefix are the first pieces of the
/// whole.
proof fn lemma_fields_prefix(s: Seq<char>, i: int, j: int)
    requires
        0 <= i <= j <= s.len(),
    ensures
        fields(s.take(i)).len() <= fields(s.take(j)).len(),
        forall|k: int|
            0 <= k < fields(s.take(i)).len() - 1 ==> fields(s.take(j))[k] == fields(s.take(i))[k],
    decreases j - i,
{
    if i < j {
        lemma_fields_prefix(s, i, j - 1);
        let t = s.take(j);
        assert(t.drop_last() =~= s.take(j - 1));
        lemma_fields_nonempty(s.take(j - 1));
    }
}

/// A string of digits is worth at least each of its prefixes.
proof fn lemma_digits_prefix(s: Seq<char>, k: int)
    requires
        0 <= k <= s.len(),
        forall|i: int| 0 <= i < s.len() ==> is_digit(#[trigger] s[i]),
    ensures
        digits_value(s) >= digits_value(s.take(k)),
        digits_value(s.take(k)) >= 0,
    decreases s.len(),
{
    if k == s.len() {
        assert(s.take(k) =~= s);
        lemma_digits_nonneg(s);
    } else {
        lemma_digits_prefix(s.drop_last(), k);
        assert(s.drop_last().take(k) =~= s.take(k));
        lemma_digits_nonneg(s.drop_last());
    }
}

proof fn lemma_digits_nonneg(s: Seq<char>)
    requires
        forall|i: int| 0 <= i < s.len() ==> is_digit(#[trigger] s[i]),
    ensures
        digits_value(s) >= 0,
    decreases s.len(),
{
    if s.len() > 0 {
        assert(is_digit(s[s.len() - 1]));
        lemma_digits_nonneg(s.drop_last());
    }
}

/// Reads `cs[start..end]` as an `i32` numeral.
fn parse_field(cs: &Vec<char>, start: usize, end: usize) -> (r: Option<i32>)
    requires
        start <= end <= cs.len(),
    ensures
        r == parse_i32(cs@.subrange(start as int, end as int)),
{
    let ghost s = cs@.subrange(start as int, end as int);
    let mut ds = start;
    let mut neg = false;
    if start < end && (cs[start] == '-' || cs[start] == '+') {
        neg = cs[start] == '-';
        ds = start + 1;
    }
    let ghost d = cs@.subrange(ds as int, end as int);
    assert(ds > start ==> d =~= s.drop_first());
    if ds == end {
        assert(!all_digits(d));
        assert(!all_digits(s)) by {
            if s.len() > 0 {
                assert(!is_digit(s[0]));
            }
        }
        return None;
    }
    let mut acc: i64 = 0;
    let mut i = ds;
    while i < end
        invariant
            start <= ds < end <= cs.len(),
            s == cs@.subrange(start as int, end as int),
            ds > start ==> d =~= s.drop_first(),
            ds > start ==> (s[0] == '-' || s[0] == '+'),
            ds == start ==> !(s.len() > 0 && (s[0] == '-' || s[0] == '+')),
            neg == (ds > start && s[0] == '-'),
            ds <= i <= end,
            d == cs@.subrange(ds as int, end as int),
            0 <= acc <= 2147483648,
            acc == digits_value(d.take(i - ds)),
            forall|k: int| 0 <= k < i - ds ==> is_digit(#[trigger] d[k]),
        decreases end - i,
    {
        let c = cs[i];
        if !('0' <= c && c <= '9') {
            assert(!is_digit(d[i - ds]));
            assert(!all_digits(d));
            assert(ds == start ==> d =~= s);
            return None;
        }
        let dv = (c as u32 - '0' as u32) as i64;
        let next = acc * 10 + dv;
        proof {
            let p = d.take(i + 1 - ds);
            assert(p.drop_last() =~= d.take(i - ds));
            assert(p.last() == c);
        }
        if next > 2147483648 {
            proof {
                if all_digits(d) {
                    lemma_digits_prefix(d, i + 1 - ds);
                }
            }
            assert(ds == start ==> d =~= s);
            return None;
        }
        acc = next;
        i = i + 1;
    }
    assert(d.take(end - ds) =~= d);
    assert(all_digits(d));
    assert(ds == start ==> d =~= s);
    if neg {
        let v: i64 = -acc;
        Some(v as i32)
    } else if acc <= 2147483647 {
        Some(acc as i32)
    } else {
        None
    }
}

/// The characters of `text`, one by one.
fn chars_of(text: &str) -> (r: Vec<char>)
    ensures
        r@ == text@,
{
    let n = text.unicode_len();
    let mut cs: Vec<char> = Vec::new();
    let mut i: usize = 0;
    while i < n
        invariant
            n == text@.len(),
            i <= n,
            cs@ == text@.take(i as int),
        decreases n - i,
    {
        cs.push(text.get_char(i));
        i = i + 1;
        assert(cs@ =~= text@.take(i as int));
    }
    assert(cs@ =~= text@);
    cs
}

/// Reads the numbers of a comma-separated list of `i32` numerals.
pub fn parse_values(text: &str) -> (r: Result<Vec<i32>, ParseError>)
    ensures
        match parse_list(text@) {
            Some(vals) => r matches Ok(v) && v@ == vals,
            None => r == Err::<Vec<i32>, ParseError>(ParseError),
        },
{
    let cs = chars_of(text);
    let n = cs.len();
    let ghost s = cs@;
    let mut vals: Vec<i32> = Vec::new();
    let mut start: usize = 0;
    let mut j: usize = 0;
    proof {
        assert(s.take(0) =~= Seq::<char>::empty());
    }
    while j < n
        invariant
            s == cs@,
            s == text@,
            n == cs.len(),
            start <= j <= n,
            fields(s.take(j as int)).len() == vals.len() + 1,
            fields(s.take(j as int)).last() == s.subrange(start as int, j as int),
            forall|k: int|
                0 <= k < vals.len() ==> parse_i32(#[trigger] fields(s.take(j as int))[k]) == Some(
                    vals@[k],
                ),
        decreases n - j,
    {
        let ghost before = fields(s.take(j as int));
        proof {
            assert(s.take(j + 1).drop_last() =~= s.take(j as int));
            lemma_fields_nonempty(s.take(j as int));
        }
        if cs[j] == ',' {
            let f = parse_field(&cs, start, j);
            match f {
                None => {
                    proof {
                        lemma_fields_prefix(s, j + 1, n as int);
                        assert(s.take(n as int) =~= s);
                        let k = vals.len() as int;
                        assert(fields(s)[k] == before[k]);
                        assert(parse_i32(fields(s)[k]) is None);
                    }
                    return Err(ParseError);
                },
                Some(v) => {
                    vals.push(v);
                },
            }
            start = j + 1;
        }
        j = j + 1;
        assert(fields(s.take(j as int)).last() =~= s.subrange(start as int, j as int));
    }
    assert(s.take(n as int) =~= s);
    let f = parse_field(&cs, start, n);
    match f {
        None => {
            assert(parse_i32(fields(s)[vals.len() as int]) is None);
            Err(ParseError)
        },
        Some(v) => {
            vals.push(v);
            assert(vals@ =~= parse_list(text@)->0);
            Ok(vals)
        },
    }
}

/// Reads one `i32` numeral: an optional sign and one or more digits.
pub fn parse_value(text: &str) -> (r: Result<i32, ParseError>)
    ensures
        match parse_i32(text@) {
            Some(v) => r == Ok::<i32, ParseError>(v),
            None => r == Err::<i32, ParseError>(ParseError),
        },
{
    let cs = chars_of(text);
    let n = cs.len();
    assert(cs@.subrange(0, n as int) =~= text@);
    match parse_field(&cs, 0, n) {
        Some(v) => Ok(v),
        None => Err(ParseError),
    }
}

} // verus!
