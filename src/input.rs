use vstd::prelude::*;
use vstd::string::StrSliceExecFns;

verus! {

/// Unicode white space, the characters that separate tokens of an input
/// line: U+0009 to U+000D, U+0020, U+0085, U+00A0, U+1680, U+2000 to
/// U+200A, U+2028, U+2029, U+202F, U+205F and U+3000.
pub open spec fn is_space(c: char) -> bool {
    let u = c as u32;
    (0x9 <= u <= 0xd) || u == 0x20 || u == 0x85 || u == 0xa0 || u == 0x1680 || (0x2000 <= u
        <= 0x200a) || u == 0x2028 || u == 0x2029 || u == 0x202f || u == 0x205f || u == 0x3000
}

fn space(c: char) -> (r: bool)
    ensures
        r == is_space(c),
{
    let u = c as u32;
    (0x9 <= u && u <= 0xd) || u == 0x20 || u == 0x85 || u == 0xa0 || u == 0x1680 || (0x2000 <= u
        && u <= 0x200a) || u == 0x2028 || u == 0x2029 || u == 0x202f || u == 0x205f || u == 0x3000
}

/// An ASCII decimal digit.
pub open spec fn is_digit(c: char) -> bool {
    '0' <= c <= '9'
}

/// The number written by the decimal digits `w`; 0 for no digits.
pub open spec fn digits_value(w: Seq<char>) -> int
    decreases w.len(),
{
    if w.len() == 0 {
        0
    } else {
        digits_value(w.drop_last()) * 10 + ((w.last() as u32) - ('0' as u32))
    }
}

/// The digits of a token once one leading `+` is dropped; a lone `+` is
/// kept, and then holds no digit.
pub open spec fn unsigned_digits(w: Seq<char>) -> Seq<char> {
    if w.len() > 1 && w[0] == '+' {
        w.drop_first()
    } else {
        w
    }
}

/// The value of a token read as an unsigned machine integer: an optional
/// `+`, then one or more decimal digits, with a value that fits in `usize`.
/// Anything else reads as nothing.
pub open spec fn token_value(w: Seq<char>) -> Option<usize> {
    let d = unsigned_digits(w);
    if d.len() > 0 && (forall|i: int| 0 <= i < d.len() ==> is_digit(#[trigger] d[i])) && digits_value(d)
        <= usize::MAX {
        Some(digits_value(d) as usize)
    } else {
        None
    }
}

/// The length of the token that `s` starts with: the characters before the
/// first white space.
pub open spec fn token_len(s: Seq<char>) -> int
    decreases s.len(),
{
    if s.len() == 0 || is_space(s[0]) {
        0
    } else {
        1 + token_len(s.drop_first())
    }
}

/// The values of the tokens of `s`, in order, where tokens are the maximal
/// runs of characters other than white space, and a token that does not
/// read as a number is left out.
pub open spec fn parsed_values(s: Seq<char>) -> Seq<usize>
    decreases s.len(),
    via parsed_values_decreases
{
    if s.len() == 0 {
        Seq::empty()
    } else if is_space(s[0]) {
        parsed_values(s.drop_first())
    } else {
        let k = token_len(s);
        let rest = parsed_values(s.skip(k));
        match token_value(s.take(k)) {
            Some(v) => seq![v] + rest,
            None => rest,
        }
    }
}

proof fn lemma_token_len_bounds(s: Seq<char>)
    ensures
        0 <= token_len(s) <= s.len(),
        s.len() > 0 && !is_space(s[0]) ==> token_len(s) >= 1,
    decreases s.len(),
{
    if s.len() > 0 && !is_space(s[0]) {
        lemma_token_len_bounds(s.drop_first());
    }
}

#[via_fn]
proof fn parsed_values_decreases(s: Seq<char>) {
    lemma_token_len_bounds(s);
}

proof fn lemma_token_len(s: Seq<char>, k: int)
    requires
        0 <= k <= s.len(),
        forall|i: int| 0 <= i < k ==> !is_space(#[trigger] s[i]),
        k == s.len() || is_space(s[k]),
    ensures
        token_len(s) == k,
        k > 0 ==> parsed_values(s) == match token_value(s.take(k)) {
            Some(v) => seq![v] + parsed_values(s.skip(k)),
            None => parsed_values(s.skip(k)),
        },
    decreases k,
{
    if k > 0 {
        let t = s.drop_first();
        assert forall|i: int| 0 <= i < k - 1 implies !is_space(#[trigger] t[i]) by {
            assert(t[i] == s[i + 1]);
        }
        lemma_token_len(t, k - 1);
    }
}

proof fn lemma_digits_value_nonneg(w: Seq<char>)
    requires
        forall|i: int| 0 <= i < w.len() ==> is_digit(#[trigger] w[i]),
    ensures
        digits_value(w) >= 0,
    decreases w.len(),
{
    if w.len() > 0 {
        lemma_digits_value_nonneg(w.drop_last());
    }
}

/// Reads the token `s[start..end]` as `token_value` does.
fn read_token(s: &Vec<char>, start: usize, end: usize) -> (r: Option<usize>)
    requires
        start < end <= s@.len(),
    ensures
        r == token_value(s@.subrange(start as int, end as int)),
{
    let ghost w = s@.subrange(start as int, end as int);
    let mut k: usize = start;
    if end - start > 1 && s[start] == '+' {
        k = start + 1;
    }
    let ghost d = unsigned_digits(w);
    assert(d =~= s@.subrange(k as int, end as int));
    let k0 = k;
    let mut value: usize = 0;
    let mut overflow = false;
    while k < end
        invariant
            start <= k0 <= k <= end <= s@.len(),
            k0 < end,
            d == s@.subrange(k0 as int, end as int),
            w == s@.subrange(start as int, end as int),
            d == unsigned_digits(w),
            forall|i: int| 0 <= i < k - k0 ==> is_digit(#[trigger] d[i]),
            !overflow ==> value == digits_value(d.take(k - k0)),
            overflow ==> digits_value(d.take(k - k0)) > usize::MAX,
        decreases end - k,
    {
        let c = s[k];
        if !('0' <= c && c <= '9') {
            assert(!is_digit(d[k - k0]));
            return None;
        }
        let digit: usize = ((c as u32) - ('0' as u32)) as usize;
        let ghost prev = d.take(k - k0);
        assert(d.take(k - k0 + 1).drop_last() =~= prev);
        proof {
            lemma_digits_value_nonneg(prev);
        }
        if !overflow {
            if value > (usize::MAX - digit) / 10 {
                overflow = true;
                assert(value * 10 + digit > usize::MAX) by (nonlinear_arith)
                    requires
                        value > (usize::MAX - digit) / 10,
                        digit <= 9,
                ;
            } else {
                assert(value * 10 + digit <= usize::MAX) by (nonlinear_arith)
                    requires
                        value <= (usize::MAX - digit) / 10,
                        digit <= 9,
                ;
                value = value * 10 + digit;
            }
        }
        k = k + 1;
    }
    assert(d.take(k - k0) =~= d);
    if overflow {
        None
    } else {
        Some(value)
    }
}

/// Reads one line of input as a list of hand positions: every token that
/// reads as an unsigned number gives its value, in order; other tokens are
/// skipped.
pub fn parse_indices(line: &str) -> (r: Vec<usize>)
    ensures
        r@ == parsed_values(line@),
{
    let n = line.unicode_len();
    let mut s: Vec<char> = Vec::new();
    let mut i: usize = 0;
    while i < n
        invariant
            n == line@.len(),
            i <= n,
            s@ == line@.take(i as int),
        decreases n - i,
    {
        s.push(line.get_char(i));
        i = i + 1;
        assert(s@ =~= line@.take(i as int));
    }
    assert(s@ =~= line@);
    let mut out: Vec<usize> = Vec::new();
    i = 0;
    while i < n
        invariant
            n == s@.len(),
            i <= n,
            out@ + parsed_values(s@.skip(i as int)) == parsed_values(s@),
        decreases n - i,
    {
        if space(s[i]) {
            assert(s@.skip(i as int).drop_first() =~= s@.skip(i + 1));
            i = i + 1;
        } else {
            let mut j: usize = i + 1;
            while j < n && !space(s[j])
                invariant
                    i < j <= n,
                    n == s@.len(),
                    forall|t: int| i <= t < j ==> !is_space(#[trigger] s@[t]),
                decreases n - j,
            {
                j = j + 1;
            }
            let ghost rest = s@.skip(i as int);
            proof {
                assert forall|t: int| 0 <= t < j - i implies !is_space(#[trigger] rest[t]) by {
                    assert(rest[t] == s@[i + t]);
                }
                lemma_token_len(rest, j - i);
                assert(rest.take(j - i) =~= s@.subrange(i as int, j as int));
                assert(rest.skip(j - i) =~= s@.skip(j as int));
            }
            match read_token(&s, i, j) {
                Some(v) => {
                    out.push(v);
                    assert(out@ + parsed_values(s@.skip(j as int)) =~= out@.drop_last() + (seq![v]
                        + parsed_values(s@.skip(j as int))));
                },
                None => {},
            }
            i = j;
        }
    }
    assert(s@.skip(i as int) =~= Seq::<char>::empty());
    assert(out@ + parsed_values(s@.skip(i as int)) =~= out@);
    out
}

} // verus!
