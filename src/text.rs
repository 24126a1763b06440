use vstd::prelude::*;
use vstd::string::*;

verus! {

/// `s` cut at every `sep`: `n` separators give `n + 1` pieces.
pub open spec fn split_spec(s: Seq<char>, sep: char) -> Seq<Seq<char>>
    decreases s.len(),
{
    if s.len() == 0 {
        seq![Seq::empty()]
    } else {
        let init = split_spec(s.drop_last(), sep);
        if s.last() == sep {
            init.push(Seq::empty())
        } else {
            init.update(init.len() - 1, init.last().push(s.last()))
        }
    }
}

/// Value of a string of decimal digits.
pub open spec fn digits_value(d: Seq<char>) -> int
    decreases d.len(),
{
    if d.len() == 0 {
        0
    } else {
        digits_value(d.drop_last()) * 10 + (d.last() as int - '0' as int)
    }
}

pub open spec fn all_digits(d: Seq<char>) -> bool {
    forall|i: int| 0 <= i < d.len() ==> '0' <= #[trigger] d[i] <= '9'
}

/// The integer written in `s` as an optional sign (`-` only when `signed`)
/// followed by one or more decimal digits, and nothing else.
pub open spec fn decimal_value(s: Seq<char>, signed: bool) -> Option<int> {
    let neg = signed && s.len() > 0 && s[0] == '-';
    let d = if s.len() > 0 && (s[0] == '+' || neg) { s.drop_first() } else { s };
    if d.len() > 0 && all_digits(d) {
        Some(if neg { -digits_value(d) } else { digits_value(d) })
    } else {
        None
    }
}

pub open spec fn parse_i32_spec(s: Seq<char>) -> Option<i32> {
    match decimal_value(s, true) {
        Some(v) => if i32::MIN <= v <= i32::MAX { Some(v as i32) } else { None },
        None => None,
    }
}

pub open spec fn parse_u32_spec(s: Seq<char>) -> Option<u32> {
    match decimal_value(s, false) {
        Some(v) => if v <= u32::MAX { Some(v as u32) } else { None },
        None => None,
    }
}

/// A prefix of a digit string has no larger value.
proof fn lemma_digits_prefix(d: Seq<char>, k: int)
    requires
        all_digits(d),
        0 <= k <= d.len(),
    ensures
        0 <= digits_value(d.take(k)) <= digits_value(d),
    decreases d.len(),
{
    if k < d.len() {
        let e = d.drop_last();
        assert(all_digits(e)) by {
            assert forall|i: int| 0 <= i < e.len() implies '0' <= #[trigger] e[i] <= '9' by {
                assert(e[i] == d[i]);
            }
        }
        lemma_digits_prefix(e, k);
        assert(e.take(k) == d.take(k));
        lemma_digits_prefix(e, e.len() as int);
        assert(e.take(e.len() as int) == e);
        assert('0' <= d.last() <= '9');
    } else {
        assert(d.take(k) == d);
        if d.len() > 0 {
            lemma_digits_prefix(d.drop_last(), d.len() - 1);
            assert(d.drop_last().take(d.len() - 1) == d.drop_last());
            assert('0' <= d[d.len() - 1] <= '9');
        }
    }
}

/// The value of `s` under `decimal_value` when it lies within 2^32 of zero.
fn decimal(s: &str, signed: bool) -> (r: Option<i64>)
    ensures
        match decimal_value(s@, signed) {
            Some(v) => if -0x1_0000_0000 <= v <= 0x1_0000_0000 { r == Some(v as i64) } else { r is None },
            None => r is None,
        },
        !signed && r is Some ==> r->0 >= 0,
        !signed ==> (decimal_value(s@, signed) matches Some(v) ==> v >= 0),
{
    let n = s.unicode_len();
    let mut start: usize = 0;
    let mut neg = false;
    if n > 0 {
        let c = s.get_char(0);
        if c == '+' {
            start = 1;
        } else if c == '-' && signed {
            start = 1;
            neg = true;
        }
    }
    let ghost d = s@.subrange(start as int, n as int);
    proof {
        if start == 1 {
            assert(d == s@.drop_first());
        } else {
            assert(d == s@);
        }
        assert(neg == (signed && s@.len() > 0 && s@[0] == '-'));
        assert(decimal_value(s@, signed) == if d.len() > 0 && all_digits(d) {
            Some(if neg { -digits_value(d) } else { digits_value(d) })
        } else {
            None::<int>
        });
        if all_digits(d) {
            lemma_digits_prefix(d, d.len() as int);
            assert(d.take(d.len() as int) == d);
        }
    }
    if start == n {
        return None;
    }
    let mut i: usize = start;
    let mut v: u64 = 0;
    proof {
        assert(d.take(0) == Seq::<char>::empty());
    }
    while i < n
        invariant
            n == s@.len(),
            start <= i <= n,
            d == s@.subrange(start as int, n as int),
            v as int == digits_value(d.take(i - start)),
            v <= 0x1_0000_0000,
            all_digits(d.take(i - start)),
            d.len() > 0,
            neg == (signed && s@.len() > 0 && s@[0] == '-'),
            !signed ==> !neg,
            all_digits(d) ==> digits_value(d) >= 0,
            decimal_value(s@, signed) == if all_digits(d) {
                Some(if neg { -digits_value(d) } else { digits_value(d) })
            } else {
                None::<int>
            },
        decreases n - i,
    {
        let c = s.get_char(i);
        if !('0' <= c && c <= '9') {
            proof {
                assert(d[i - start] == c);
                assert(!all_digits(d));
            }
            return None;
        }
        let ghost k = (i - start) as int;
        proof {
            assert(d.take(k + 1).drop_last() == d.take(k));
            assert(d.take(k + 1).last() == c);
            assert(all_digits(d.take(k + 1))) by {
                assert forall|j: int| 0 <= j < k + 1 implies '0' <= #[trigger] d.take(k + 1)[j] <= '9' by {
                    if j < k {
                        assert(d.take(k + 1)[j] == d.take(k)[j]);
                    }
                }
            }
        }
        v = v * 10 + (c as u64 - '0' as u64);
        if v > 0x1_0000_0000 {
            proof {
                if all_digits(d) {
                    lemma_digits_prefix(d, k + 1);
                }
            }
            return None;
        }
        i += 1;
    }
    proof {
        assert(d.take(n - start) == d);
    }
    if neg {
        Some(-(v as i64))
    } else {
        Some(v as i64)
    }
}

/// An `i32` written as an optional `+` or `-` and decimal digits only.
pub fn parse_i32(s: &str) -> (r: Option<i32>)
    ensures
        r == parse_i32_spec(s@),
{
    match decimal(s, true) {
        Some(v) => if -2147483648 <= v && v <= 2147483647 { Some(v as i32) } else { None },
        None => None,
    }
}

/// A `u32` written as an optional `+` and decimal digits only.
pub fn parse_u32(s: &str) -> (r: Option<u32>)
    ensures
        r == parse_u32_spec(s@),
{
    match decimal(s, false) {
        Some(v) => if 0 <= v && v <= 4294967295 { Some(v as u32) } else { None },
        None => None,
    }
}

/// Cuts `s` at every `sep`.
pub fn split(s: &str, sep: char) -> (r: Vec<String>)
    ensures
        r@.map_values(|p: String| p@) == split_spec(s@, sep),
{
    let n = s.unicode_len();
    let mut pieces: Vec<String> = Vec::new();
    let mut start: usize = 0;
    let mut i: usize = 0;
    proof {
        assert(s@.subrange(0, 0) == Seq::<char>::empty());
    }
    while i < n
        invariant
            n == s@.len(),
            start <= i <= n,
            pieces@.map_values(|p: String| p@).push(s@.subrange(start as int, i as int)) == split_spec(s@.subrange(0, i as int), sep),
        decreases n - i,
    {
        let c = s.get_char(i);
        proof {
            let pre = s@.subrange(0, i + 1 as int);
            assert(pre.drop_last() == s@.subrange(0, i as int));
            assert(pre.last() == c);
        }
        if c == sep {
            let piece = s.substring_char(start, i).to_owned();
            let ghost old_pieces = pieces@;
            pieces.push(piece);
            proof {
                assert(pieces@.map_values(|p: String| p@) == old_pieces.map_values(|p: String| p@).push(s@.subrange(start as int, i as int)));
                assert(s@.subrange(i + 1 as int, i + 1 as int) == Seq::<char>::empty());
            }
            start = i + 1;
        } else {
            proof {
                let v = pieces@.map_values(|p: String| p@);
                assert(s@.subrange(start as int, i + 1 as int) == s@.subrange(start as int, i as int).push(c));
                assert(v.push(s@.subrange(start as int, i + 1 as int)) == v.push(s@.subrange(start as int, i as int)).update(v.len() as int, s@.subrange(start as int, i as int).push(c)));
            }
        }
        i += 1;
    }
    let last = s.substring_char(start, n).to_owned();
    let ghost old_pieces = pieces@;
    pieces.push(last);
    proof {
        assert(s@.subrange(0, n as int) == s@);
        assert(pieces@.map_values(|p: String| p@) == old_pieces.map_values(|p: String| p@).push(s@.subrange(start as int, n as int)));
    }
    pieces
}

} // verus!
