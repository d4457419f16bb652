//! The settings the components are built from. Durations are milliseconds.
use vstd::prelude::*;

verus! {

#[derive(Clone, Debug)]
pub struct Config {
    pub auth_pass_argon2: String,
    pub auth_user: String,
    pub auth_token_cleanup_interval_millis: u64,
    pub auth_token_ttl_millis: i64,
    pub auth_token_max_per_user: usize,
    pub file_extensions: Vec<String>,
    pub rescrape_interval_millis: u64,
    pub chunk_size: usize,
    pub chunk_delay_millis: u64,
    pub serve_dir: String,
    pub listen_address: String,
}

} // verus!

verus! {

/// The value of a string of decimal digits.
pub open spec fn digits_value(s: Seq<char>) -> int
    decreases s.len(),
{
    if s.len() == 0 {
        0
    } else {
        digits_value(s.drop_last()) * 10 + (s.last() as int - '0' as int)
    }
}

/// Every character of `s` is an ASCII digit.
pub open spec fn all_digits(s: Seq<char>) -> bool {
    forall|i: int| 0 <= i < s.len() ==> '0' <= #[trigger] s[i] && s[i] <= '9'
}

/// An unsigned decimal number: an optional `+`, then one or more digits,
/// with a value that fits in 64 bits.
pub open spec fn decimal_value(s: Seq<char>) -> Option<u64> {
    let body = if s.len() > 0 && s[0] == '+' {
        s.drop_first()
    } else {
        s
    };
    if body.len() > 0 && all_digits(body) && digits_value(body) <= u64::MAX {
        Some(digits_value(body) as u64)
    } else {
        None
    }
}

proof fn lemma_digits_value_grows(s: Seq<char>, k: int)
    requires
        all_digits(s),
        0 <= k <= s.len(),
    ensures
        0 <= digits_value(s.subrange(0, k)) <= digits_value(s),
    decreases s.len() - k,
{
    if k < s.len() {
        lemma_digits_value_grows(s, k + 1);
        assert(s.subrange(0, k + 1).drop_last() =~= s.subrange(0, k));
        assert(s.subrange(0, k + 1)[k] == s[k]);
    } else {
        assert(s.subrange(0, k) =~= s);
        lemma_digits_value_nonneg(s);
    }
}

proof fn lemma_digits_value_nonneg(s: Seq<char>)
    requires
        all_digits(s),
    ensures
        digits_value(s) >= 0,
    decreases s.len(),
{
    if s.len() > 0 {
        assert(all_digits(s.drop_last())) by {
            assert forall|i: int| 0 <= i < s.drop_last().len() implies '0' <= #[trigger] s.drop_last()[i]
                && s.drop_last()[i] <= '9' by {
                assert(s.drop_last()[i] == s[i]);
            }
        }
        lemma_digits_value_nonneg(s.drop_last());
        assert(s[s.len() - 1] >= '0');
    }
}

/// Parses an unsigned decimal number as std's `u64` parser does.
pub fn parse_decimal(s: &str) -> (r: Option<u64>)
    ensures
        r == decimal_value(s@),
{
    let n = s.unicode_len();
    let start: usize = if n > 0 && s.get_char(0) == '+' { 1 } else { 0 };
    let ghost body = if s@.len() > 0 && s@[0] == '+' { s@.drop_first() } else { s@ };
    assert(body =~= s@.subrange(start as int, n as int));
    assert(decimal_value(s@) == if body.len() > 0 && all_digits(body) && digits_value(body)
        <= u64::MAX {
        Some(digits_value(body) as u64)
    } else {
        None
    });
    if start == n {
        return None;
    }
    let mut acc: u64 = 0;
    let mut i: usize = start;
    while i < n
        invariant
            start <= i <= n,
            n == s@.len(),
            body == s@.subrange(start as int, n as int),
            decimal_value(s@) == if body.len() > 0 && all_digits(body) && digits_value(body)
                <= u64::MAX {
                Some(digits_value(body) as u64)
            } else {
                None
            },
            body.len() > 0,
            all_digits(body.subrange(0, i - start)),
            acc as int == digits_value(body.subrange(0, i - start)),
        decreases n - i,
    {
        let c = s.get_char(i);
        let ghost pre = body.subrange(0, i - start);
        let ghost next = body.subrange(0, i - start + 1);
        assert(next.drop_last() =~= pre);
        assert(next.last() == c);
        if c < '0' || c > '9' {
            assert(body[i - start] == c);
            assert(!all_digits(body));
            return None;
        }
        let d = (c as u32 - '0' as u32) as u64;
        assert forall|j: int| 0 <= j < next.len() implies '0' <= #[trigger] next[j] && next[j] <= '9' by {
            if j < pre.len() {
                assert(next[j] == pre[j]);
            }
        }
        if acc > (u64::MAX - d) / 10 {
            proof {
                assert(digits_value(next) == acc * 10 + d);
                assert(acc * 10 + d > u64::MAX) by (nonlinear_arith)
                    requires
                        acc > (u64::MAX - d) / 10,
                        d <= 9,
                ;
                if all_digits(body) {
                    lemma_digits_value_grows(body, i - start + 1);
                }
            }
            return None;
        }
        acc = acc * 10 + d;
        i = i + 1;
    }
    assert(body.subrange(0, n - start) =~= body);
    Some(acc)
}

} // verus!

verus! {

/// The pieces of `s` between commas, as `str::split(',')` yields them.
pub open spec fn comma_pieces(s: Seq<char>) -> Seq<Seq<char>>
    decreases s.len(),
{
    if s.len() == 0 {
        seq![Seq::<char>::empty()]
    } else {
        let p = comma_pieces(s.drop_last());
        if s.last() == ',' {
            p.push(Seq::empty())
        } else {
            p.update(p.len() - 1, p.last().push(s.last()))
        }
    }
}

proof fn lemma_comma_pieces_nonempty(s: Seq<char>)
    ensures
        comma_pieces(s).len() >= 1,
    decreases s.len(),
{
    if s.len() > 0 {
        lemma_comma_pieces_nonempty(s.drop_last());
    }
}

/// The comma-separated pieces of `s`, empty ones included.
pub fn split_on_commas(s: &str) -> (r: Vec<String>)
    ensures
        r@.map_values(|p: String| p@) == comma_pieces(s@),
{
    let n = s.unicode_len();
    let mut out: Vec<String> = Vec::new();
    let mut piece_start: usize = 0;
    let mut i: usize = 0;
    assert(s@.subrange(0, 0) =~= Seq::<char>::empty());
    assert(out@.map_values(|p: String| p@).push(s@.subrange(0, 0)) =~= comma_pieces(s@.subrange(0, 0)));
    while i < n
        invariant
            n == s@.len(),
            piece_start <= i <= n,
            out@.map_values(|p: String| p@).push(s@.subrange(piece_start as int, i as int))
                == comma_pieces(s@.subrange(0, i as int)),
        decreases n - i,
    {
        let ghost pre = s@.subrange(0, i as int);
        let ghost next = s@.subrange(0, i + 1);
        let ghost before = out@.map_values(|p: String| p@);
        assert(next.drop_last() =~= pre);
        let c = s.get_char(i);
        assert(next.last() == c);
        if c == ',' {
            let piece = s.substring_char(piece_start, i).to_string();
            out.push(piece);
            assert(out@.map_values(|p: String| p@) =~= before.push(s@.subrange(piece_start as int, i as int)));
            piece_start = i + 1;
            assert(s@.subrange(piece_start as int, i + 1) =~= Seq::<char>::empty());
        } else {
            proof {
                lemma_comma_pieces_nonempty(pre);
                assert(s@.subrange(piece_start as int, i + 1) =~= s@.subrange(piece_start as int, i as int).push(c));
                assert(before.push(s@.subrange(piece_start as int, i + 1)) =~= comma_pieces(pre).update(
                    comma_pieces(pre).len() - 1,
                    comma_pieces(pre).last().push(c),
                ));
            }
        }
        i = i + 1;
    }
    let last = s.substring_char(piece_start, n).to_string();
    let ghost before = out@.map_values(|p: String| p@);
    out.push(last);
    assert(out@.map_values(|p: String| p@) =~= before.push(s@.subrange(piece_start as int, n as int)));
    assert(s@.subrange(0, n as int) =~= s@);
    out
}

} // verus!

verus! {

/// `secs` seconds in milliseconds, when that fits a signed 64-bit count.
pub fn secs_to_millis(secs: u64) -> (r: Option<i64>)
    ensures
        r == if secs * 1000 <= i64::MAX {
            Some((secs * 1000) as i64)
        } else {
            None::<i64>
        },
{
    if secs > (i64::MAX as u64) / 1000 {
        None
    } else {
        Some((secs * 1000) as i64)
    }
}

} // verus!
