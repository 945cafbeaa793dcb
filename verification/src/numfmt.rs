use vstd::prelude::*;

verus! {

pub open spec fn is_dec_digit(c: char) -> bool {
    '0' <= c && c <= '9'
}

pub open spec fn all_dec_digits(s: Seq<char>) -> bool {
    forall|i: int| 0 <= i < s.len() ==> is_dec_digit(#[trigger] s[i])
}

pub open spec fn digit_char(d: int) -> char {
    if d == 0 {
        '0'
    } else if d == 1 {
        '1'
    } else if d == 2 {
        '2'
    } else if d == 3 {
        '3'
    } else if d == 4 {
        '4'
    } else if d == 5 {
        '5'
    } else if d == 6 {
        '6'
    } else if d == 7 {
        '7'
    } else if d == 8 {
        '8'
    } else {
        '9'
    }
}

pub open spec fn digit_val(c: char) -> int {
    c as int - 48
}

/// The canonical decimal form of `n`: no sign, no leading zero.
pub open spec fn spec_digits(n: nat) -> Seq<char>
    decreases n,
{
    if n < 10 {
        seq![digit_char(n as int)]
    } else {
        spec_digits(n / 10).push(digit_char((n % 10) as int))
    }
}

/// The numeric value of a digit string, most significant digit first.
pub open spec fn dec_val(s: Seq<char>) -> int
    decreases s.len(),
{
    if s.len() == 0 {
        0
    } else {
        dec_val(s.drop_last()) * 10 + digit_val(s.last())
    }
}

/// The numeric identity token of a record name's stem: any non-empty
/// all-digit string whose value fits in `usize`.
pub open spec fn spec_parse_id(s: Seq<char>) -> Option<usize> {
    if s.len() > 0 && all_dec_digits(s) && dec_val(s) <= usize::MAX as int {
        Some(dec_val(s) as usize)
    } else {
        None
    }
}

pub proof fn lemma_dec_val_nonneg(s: Seq<char>)
    requires
        all_dec_digits(s),
    ensures
        dec_val(s) >= 0,
    decreases s.len(),
{
    if s.len() > 0 {
        assert(all_dec_digits(s.drop_last())) by {
            assert(forall|i: int|
                0 <= i < s.len() - 1 ==> #[trigger] s.drop_last()[i] == s[i]);
        }
        lemma_dec_val_nonneg(s.drop_last());
    }
}

/// The value of a digit string is at least the value of any of its prefixes.
pub proof fn lemma_dec_val_take_le(s: Seq<char>, j: int)
    requires
        all_dec_digits(s),
        0 <= j <= s.len(),
    ensures
        dec_val(s.take(j)) <= dec_val(s),
    decreases s.len() - j,
{
    if j == s.len() {
        assert(s.take(j) =~= s);
    } else {
        lemma_dec_val_take_le(s, j + 1);
        let t = s.take(j + 1);
        assert(t.drop_last() =~= s.take(j));
        assert(t.last() == s[j]);
        assert(all_dec_digits(s.take(j))) by {
            assert(forall|i: int| 0 <= i < j ==> #[trigger] s.take(j)[i] == s[i]);
        }
        lemma_dec_val_nonneg(s.take(j));
        assert(dec_val(s.take(j)) * 10 >= dec_val(s.take(j)));
        assert(digit_val(s[j]) >= 0);
    }
}

/// The canonical decimal form consists of digits and has no leading zero.
pub proof fn lemma_spec_digits_shape(n: nat)
    ensures
        spec_digits(n).len() >= 1,
        all_dec_digits(spec_digits(n)),
        spec_digits(n).len() > 1 ==> spec_digits(n)[0] != '0',
        n >= 1 ==> spec_digits(n)[0] != '0',
    decreases n,
{
    if n < 10 {
    } else {
        lemma_spec_digits_shape(n / 10);
        let p = spec_digits(n / 10);
        assert(spec_digits(n) == p.push(digit_char((n % 10) as int)));
        assert(spec_digits(n)[0] == p[0]);
        assert(n / 10 >= 1);
    }
}

/// The canonical decimal form of `n` evaluates back to `n`.
pub proof fn lemma_digits_val(n: nat)
    ensures
        dec_val(spec_digits(n)) == n,
    decreases n,
{
    if n < 10 {
        let s = spec_digits(n);
        assert(s == seq![digit_char(n as int)]);
        assert(s.drop_last() =~= Seq::<char>::empty());
        assert(s.last() == digit_char(n as int));
        assert(dec_val(s) == dec_val(s.drop_last()) * 10 + digit_val(s.last()));
        assert(dec_val(s.drop_last()) == 0);
        assert(digit_val(digit_char(n as int)) == n);
    } else {
        lemma_digits_val(n / 10);
        let s = spec_digits(n);
        assert(s == spec_digits(n / 10).push(digit_char((n % 10) as int)));
        assert(s.drop_last() =~= spec_digits(n / 10));
        assert(s.last() == digit_char((n % 10) as int));
        assert(dec_val(s) == dec_val(s.drop_last()) * 10 + digit_val(s.last()));
        assert(digit_val(digit_char((n % 10) as int)) == n % 10);
    }
}

/// A non-empty all-digit string without a leading zero is the canonical
/// decimal form of its own value.
pub proof fn lemma_digits_canonical(t: Seq<char>)
    requires
        t.len() >= 1,
        all_dec_digits(t),
        t.len() > 1 ==> t[0] != '0',
    ensures
        dec_val(t) >= 0,
        spec_digits(dec_val(t) as nat) == t,
    decreases t.len(),
{
    lemma_dec_val_nonneg(t);
    if t.len() == 1 {
        assert(is_dec_digit(t[0]));
        assert(t.drop_last() =~= Seq::<char>::empty());
        assert(t.last() == t[0]);
        assert(dec_val(t) == dec_val(t.drop_last()) * 10 + digit_val(t.last()));
        assert(dec_val(t) == digit_val(t[0]));
        assert(digit_char(digit_val(t[0])) == t[0]);
        assert(spec_digits(dec_val(t) as nat) =~= t);
    } else {
        let p = t.drop_last();
        assert(all_dec_digits(p)) by {
            assert(forall|i: int| 0 <= i < p.len() ==> #[trigger] p[i] == t[i]);
        }
        assert(p[0] == t[0]);
        lemma_digits_canonical(p);
        let v = dec_val(t);
        let pv = dec_val(p);
        assert(v == pv * 10 + digit_val(t.last()));
        // p has no leading zero and length >= 1, so its value is at least 1
        assert(pv >= 1) by {
            if pv == 0 {
                lemma_digits_val(0);
                assert(spec_digits(0) == seq!['0']);
                assert(p == seq!['0']);
                assert(t[0] == '0');
            }
        }
        assert(v >= 10);
        assert(v / 10 == pv && v % 10 == digit_val(t.last())) by {
            assert(0 <= digit_val(t.last()) < 10);
            assert(v == pv * 10 + digit_val(t.last()));
            assert((pv * 10 + digit_val(t.last())) / 10 == pv) by (nonlinear_arith)
                requires 0 <= digit_val(t.last()) < 10;
            assert((pv * 10 + digit_val(t.last())) % 10 == digit_val(t.last())) by (nonlinear_arith)
                requires 0 <= digit_val(t.last()) < 10;
        }
        assert(digit_char(digit_val(t.last())) == t.last());
        assert(spec_digits(v as nat) == spec_digits(pv as nat).push(t.last()));
        assert(spec_digits(v as nat) =~= t);
    }
}

pub fn digit_to_char(d: u64) -> (c: char)
    requires
        d < 10,
    ensures
        c == digit_char(d as int),
{
    if d == 0 {
        '0'
    } else if d == 1 {
        '1'
    } else if d == 2 {
        '2'
    } else if d == 3 {
        '3'
    } else if d == 4 {
        '4'
    } else if d == 5 {
        '5'
    } else if d == 6 {
        '6'
    } else if d == 7 {
        '7'
    } else if d == 8 {
        '8'
    } else {
        '9'
    }
}

/// Appends the canonical decimal form of `n` to `out`.
pub fn push_digits(n: u64, out: &mut Vec<char>)
    ensures
        final(out)@ == old(out)@ + spec_digits(n as nat),
    decreases n,
{
    if n < 10 {
        let c = digit_to_char(n);
        out.push(c);
        assert(out@ =~= old(out)@ + spec_digits(n as nat));
    } else {
        push_digits(n / 10, out);
        let c = digit_to_char(n % 10);
        out.push(c);
        assert(out@ =~= old(out)@ + spec_digits(n as nat));
    }
}

/// The canonical decimal form of `n`, as characters.
pub fn format_usize(n: usize) -> (r: Vec<char>)
    ensures
        r@ == spec_digits(n as nat),
{
    let mut out: Vec<char> = Vec::new();
    push_digits(n as u64, &mut out);
    assert(out@ =~= spec_digits(n as nat));
    out
}

/// If `c` is a decimal digit, its value; otherwise nothing.
pub fn char_digit(c: char) -> (r: Option<u64>)
    ensures
        r is Some <==> is_dec_digit(c),
        r is Some ==> r.unwrap() == digit_val(c) && digit_val(c) < 10,
{
    if '0' <= c && c <= '9' {
        let v = c as u32;
        Some((v - 48) as u64)
    } else {
        None
    }
}

/// Parses a whole character range as a decimal `usize`: non-empty, all
/// digits, value within range — exactly when `spec_parse_id` accepts it.
pub fn parse_id_chars(s: &Vec<char>, from: usize, to: usize) -> (r: Option<usize>)
    requires
        from <= to <= s@.len(),
    ensures
        r == spec_parse_id(s@.subrange(from as int, to as int)),
{
    let ghost t = s@.subrange(from as int, to as int);
    if from == to {
        return None;
    }
    let mut acc: usize = 0;
    let mut i: usize = from;
    while i < to
        invariant
            from <= i <= to <= s@.len(),
            t == s@.subrange(from as int, to as int),
            all_dec_digits(s@.subrange(from as int, i as int)),
            acc == dec_val(s@.subrange(from as int, i as int)),
        decreases to - i,
    {
        let c = s[i];
        let ghost pre = s@.subrange(from as int, i as int);
        let ghost cur = s@.subrange(from as int, i + 1);
        assert(cur.drop_last() =~= pre);
        assert(cur.last() == s@[i as int]);
        match char_digit(c) {
            None => {
                // a non-digit anywhere makes the whole range unparsable
                assert(t[i - from] == c);
                assert(!all_dec_digits(t));
                return None;
            },
            Some(d) => {
                let dd = d as usize;
                if acc <= (usize::MAX - dd) / 10 {
                    assert(acc * 10 + dd <= usize::MAX) by {
                        assert(10 * ((usize::MAX - dd) / 10) <= usize::MAX - dd);
                    }
                    acc = acc * 10 + dd;
                } else {
                    // the prefix already exceeds usize::MAX, so the whole
                    // range does too, whether or not the rest are digits
                    assert(acc * 10 + dd > usize::MAX) by {
                        assert(acc >= (usize::MAX - dd) / 10 + 1);
                        assert(10 * ((usize::MAX - dd) / 10) + 10 > usize::MAX - dd);
                    }
                    proof {
                        if all_dec_digits(t) {
                            lemma_dec_val_take_le(t, i + 1 - from);
                            assert(t.take(i + 1 - from) =~= cur);
                        }
                    }
                    return None;
                }
            },
        }
        i = i + 1;
    }
    assert(s@.subrange(from as int, to as int) =~= t);
    Some(acc)
}

} // verus!
