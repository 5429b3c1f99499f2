use vstd::prelude::*;

verus! {

/// Splitting bytes into lines (`line_mode`) or words: the pieces finished so
/// far and the piece in progress.
pub open spec fn split_state(b: Seq<u8>, line_mode: bool) -> (Seq<Seq<u8>>, Seq<u8>)
    decreases b.len(),
{
    if b.len() == 0 {
        (Seq::empty(), Seq::empty())
    } else {
        let (done, cur) = split_state(b.drop_last(), line_mode);
        let x = b.last();
        if line_mode && x == 10u8 {
            (done.push(strip_cr(cur)), Seq::empty())
        } else if !line_mode && is_blank(x) {
            if cur.len() > 0 {
                (done.push(cur), Seq::empty())
            } else {
                (done, cur)
            }
        } else {
            (done, cur.push(x))
        }
    }
}

pub open spec fn is_blank(x: u8) -> bool {
    x == 32u8 || x == 9u8 || x == 13u8
}

/// A line without its trailing carriage return.
pub open spec fn strip_cr(c: Seq<u8>) -> Seq<u8> {
    if c.len() > 0 && c.last() == 13u8 {
        c.drop_last()
    } else {
        c
    }
}

/// The lines of a text: split at `\n`, a trailing `\r` dropped, and no empty
/// last line after a final `\n`.
pub open spec fn lines(b: Seq<u8>) -> Seq<Seq<u8>> {
    let (done, cur) = split_state(b, true);
    if cur.len() > 0 {
        done.push(strip_cr(cur))
    } else {
        done
    }
}

/// The words of a line: maximal runs of bytes other than space, tab and `\r`.
pub open spec fn tokens(b: Seq<u8>) -> Seq<Seq<u8>> {
    let (done, cur) = split_state(b, false);
    if cur.len() > 0 {
        done.push(cur)
    } else {
        done
    }
}

pub open spec fn view_all(v: Seq<Vec<u8>>) -> Seq<Seq<u8>> {
    v.map_values(|l: Vec<u8>| l@)
}

/// Splits bytes into lines (`line_mode`) or a line into words.
pub fn split(b: &[u8], line_mode: bool) -> (r: Vec<Vec<u8>>)
    ensures
        view_all(r@) == if line_mode {
            lines(b@)
        } else {
            tokens(b@)
        },
{
    let mut done: Vec<Vec<u8>> = Vec::new();
    let mut cur: Vec<u8> = Vec::new();
    let mut i: usize = 0;
    while i < b.len()
        invariant
            0 <= i <= b.len(),
            (view_all(done@), cur@) == split_state(b@.subrange(0, i as int), line_mode),
        decreases b.len() - i,
    {
        let x = b[i];
        proof {
            assert(b@.subrange(0, i + 1).drop_last() =~= b@.subrange(0, i as int));
        }
        if line_mode && x == 10u8 {
            let n = cur.len();
            if n > 0 && cur[n - 1] == 13u8 {
                cur.pop();
            }
            let ghost before = view_all(done@);
            done.push(cur);
            proof {
                assert(view_all(done@) =~= before.push(done@[done.len() - 1]@));
            }
            cur = Vec::new();
        } else if !line_mode && (x == 32u8 || x == 9u8 || x == 13u8) {
            if cur.len() > 0 {
                let ghost before = view_all(done@);
                done.push(cur);
                proof {
                    assert(view_all(done@) =~= before.push(done@[done.len() - 1]@));
                }
                cur = Vec::new();
            }
        } else {
            cur.push(x);
        }
        i = i + 1;
    }
    proof {
        assert(b@.subrange(0, b.len() as int) =~= b@);
    }
    if cur.len() > 0 {
        if line_mode {
            let n = cur.len();
            if cur[n - 1] == 13u8 {
                cur.pop();
            }
        }
        let ghost before = view_all(done@);
        done.push(cur);
        proof {
            assert(view_all(done@) =~= before.push(done@[done.len() - 1]@));
        }
    }
    done
}

pub open spec fn is_digit(x: u8) -> bool {
    48u8 <= x <= 57u8
}

/// Every byte is a decimal digit, and there is at least one.
pub open spec fn is_digits(s: Seq<u8>) -> bool {
    s.len() > 0 && forall|k: int| 0 <= k < s.len() ==> is_digit(#[trigger] s[k])
}

/// The number that a string of decimal digits spells.
pub open spec fn digits_value(s: Seq<u8>) -> int
    decreases s.len(),
{
    if s.len() == 0 {
        0
    } else {
        digits_value(s.drop_last()) * 10 + (s.last() - 48)
    }
}

/// The value of a natural-number word that fits in 32 bits.
pub open spec fn nat_word(s: Seq<u8>) -> Option<int> {
    if is_digits(s) && digits_value(s) <= u32::MAX {
        Some(digits_value(s))
    } else {
        None
    }
}

proof fn lemma_digits_value_grows(s: Seq<u8>, k: int)
    requires
        0 <= k <= s.len(),
        forall|t: int| 0 <= t < s.len() ==> is_digit(#[trigger] s[t]),
    ensures
        0 <= digits_value(s.subrange(0, k)) <= digits_value(s),
    decreases s.len() - k,
{
    if k < s.len() {
        lemma_digits_value_grows(s, k + 1);
        assert(s.subrange(0, k + 1).drop_last() =~= s.subrange(0, k));
        lemma_digits_value_nonneg(s.subrange(0, k));
    } else {
        assert(s.subrange(0, k) =~= s);
        lemma_digits_value_nonneg(s);
    }
}

pub proof fn lemma_digits_value_nonneg(s: Seq<u8>)
    requires
        forall|t: int| 0 <= t < s.len() ==> is_digit(#[trigger] s[t]),
    ensures
        0 <= digits_value(s),
    decreases s.len(),
{
    if s.len() > 0 {
        lemma_digits_value_nonneg(s.drop_last());
    }
}

/// Reads the natural-number word `t[lo..hi]`.
pub fn parse_nat(t: &Vec<u8>, lo: usize, hi: usize) -> (r: Option<u32>)
    requires
        lo <= hi <= t.len(),
    ensures
        r matches Some(v) ==> nat_word(t@.subrange(lo as int, hi as int)) == Some(v as int),
        r is None ==> nat_word(t@.subrange(lo as int, hi as int)) is None,
{
    let ghost s = t@.subrange(lo as int, hi as int);
    if lo == hi {
        return None;
    }
    let mut acc: u64 = 0;
    let mut i: usize = lo;
    while i < hi
        invariant
            lo <= i <= hi <= t.len(),
            s == t@.subrange(lo as int, hi as int),
            forall|k: int| 0 <= k < i - lo ==> is_digit(#[trigger] s[k]),
            acc == digits_value(s.subrange(0, i - lo)),
            acc <= u32::MAX,
        decreases hi - i,
    {
        let x = t[i];
        if x < 48u8 || x > 57u8 {
            proof {
                assert(!is_digit(s[i - lo]));
            }
            return None;
        }
        proof {
            assert(s.subrange(0, i + 1 - lo).drop_last() =~= s.subrange(0, i - lo));
        }
        acc = acc * 10 + (x - 48u8) as u64;
        if acc > 0xffff_ffff {
            proof {
                let k = i + 1 - lo;
                if forall|t: int| 0 <= t < s.len() ==> is_digit(#[trigger] s[t]) {
                    lemma_digits_value_grows(s, k);
                }
            }
            return None;
        }
        i = i + 1;
    }
    proof {
        assert(s.subrange(0, hi - lo) =~= s);
    }
    Some(acc as u32)
}

/// Index of the first `x` in `s`, or `s.len()` when there is none.
pub open spec fn first_byte(s: Seq<u8>, x: u8) -> int
    decreases s.len(),
{
    if s.len() == 0 {
        0
    } else if s[0] == x {
        0
    } else {
        1 + first_byte(s.drop_first(), x)
    }
}

pub proof fn lemma_first_byte(s: Seq<u8>, x: u8, i: int)
    requires
        0 <= i <= s.len(),
        forall|k: int| 0 <= k < i ==> s[k] != x,
        i == s.len() || s[i] == x,
    ensures
        first_byte(s, x) == i,
    decreases s.len(),
{
    if s.len() > 0 && i > 0 {
        lemma_first_byte(s.drop_first(), x, i - 1);
    }
}

pub open spec fn pow10(k: int) -> int {
    if k <= 0 {
        1
    } else if k == 1 {
        10
    } else if k == 2 {
        100
    } else if k == 3 {
        1000
    } else {
        10000
    }
}

/// The first four digits of a fraction, padded with zeros, as a number.
pub open spec fn frac4(fp: Seq<u8>) -> int {
    digits_value(Seq::new(4, |k: int| if k < fp.len() { fp[k] } else { 48u8 }))
}

/// The value of a coordinate word `[-]digits[.digits]`, with at most four
/// fraction digits, in units of 1/10000, when it fits in an `i32`.
pub open spec fn coord_word(s: Seq<u8>) -> Option<int> {
    let neg = s.len() > 0 && s[0] == 45u8;
    let body = if neg {
        s.subrange(1, s.len() as int)
    } else {
        s
    };
    let d = first_byte(body, 46u8);
    let ip = body.subrange(0, d);
    let fp = if d < body.len() {
        body.subrange(d + 1, body.len() as int)
    } else {
        Seq::empty()
    };
    if !is_digits(ip) || (d < body.len() && (!is_digits(fp) || fp.len() > 4)) {
        None
    } else {
        let mag = digits_value(ip) * 10000 + frac4(fp);
        if mag > i32::MAX {
            None
        } else {
            Some(
                if neg {
                    -mag
                } else {
                    mag
                },
            )
        }
    }
}

/// Reads a coordinate word.
pub fn parse_coord(t: &Vec<u8>) -> (r: Option<i32>)
    ensures
        r matches Some(v) ==> coord_word(t@) == Some(v as int),
        r is None ==> coord_word(t@) is None,
{
    let n = t.len();
    let neg = n > 0 && t[0] == 45u8;
    let lo: usize = if neg {
        1
    } else {
        0
    };
    let ghost body = if neg {
        t@.subrange(1, n as int)
    } else {
        t@
    };
    let mut d: usize = lo;
    while d < n && t[d] != 46u8
        invariant
            lo <= d <= n,
            n == t.len(),
            body == t@.subrange(lo as int, n as int),
            forall|k: int| lo <= k < d ==> t@[k] != 46u8,
        decreases n - d,
    {
        d = d + 1;
    }
    proof {
        assert(body =~= t@.subrange(lo as int, n as int));
        lemma_first_byte(body, 46u8, d - lo);
        assert(body.subrange(0, d - lo) =~= t@.subrange(lo as int, d as int));
    }
    let ghost fp = if d < n {
        t@.subrange(d + 1, n as int)
    } else {
        Seq::empty()
    };
    proof {
        if d < n {
            assert(body.subrange(d - lo + 1, body.len() as int) =~= fp);
        }
    }
    let ip = match parse_nat(t, lo, d) {
        Some(v) => v,
        None => {
            proof {
                if is_digits(t@.subrange(lo as int, d as int)) && (d == n || is_digits(fp)) {
                    lemma_digits_value_nonneg(
                        Seq::new(4, |k: int| if k < fp.len() { fp[k] } else { 48u8 }),
                    );
                }
            }
            return None;
        },
    };
    let mut f: u64 = 0;
    if d < n {
        if n - d - 1 > 4 {
            proof {
                assert(body.subrange(d - lo + 1, body.len() as int).len() > 4);
                assert((d - lo) < body.len());
            }
            return None;
        }
        if d + 1 == n {
            proof {
                assert(fp.len() == 0);
                assert(!is_digits(body.subrange(d - lo + 1, body.len() as int)));
                assert((d - lo) < body.len());
            }
            return None;
        }
        let mut k: usize = d + 1;
        while k < n
            invariant
                d + 1 <= k <= n,
                lo <= d,
                n == t.len(),
                fp == t@.subrange(d + 1, n as int),
                body.subrange(d - lo + 1, body.len() as int) == fp,
                first_byte(body, 46u8) == d - lo,
                body.len() == n - lo,
                body == if neg {
                    t@.subrange(1, n as int)
                } else {
                    t@
                },
                neg == (n > 0 && t@[0] == 45u8),
                forall|u: int| d + 1 <= u < k ==> is_digit(#[trigger] t@[u]),
            decreases n - k,
        {
            if t[k] < 48u8 || t[k] > 57u8 {
                proof {
                    assert(!is_digit(fp[k - d - 1]));
                }
                return None;
            }
            k = k + 1;
        }
        proof {
            assert forall|u: int| 0 <= u < fp.len() implies is_digit(#[trigger] fp[u]) by {
                assert(fp[u] == t@[u + d + 1]);
            }
        }
    }
    let ghost pad = Seq::new(4, |k: int| if k < fp.len() { fp[k] } else { 48u8 });
    let mut k: usize = 0;
    while k < 4
        invariant
            0 <= k <= 4,
            f == digits_value(pad.subrange(0, k as int)),
            f < pow10(k as int),
            pad == Seq::new(4, |k: int| if k < fp.len() { fp[k] } else { 48u8 }),
            d < n ==> fp == t@.subrange(d + 1, n as int),
            d >= n ==> fp.len() == 0,
            n == t.len(),
            forall|u: int| 0 <= u < fp.len() ==> is_digit(#[trigger] fp[u]),
        decreases 4 - k,
    {
        let c: u8 = if d < n && k < n - d - 1 {
            t[d + 1 + k]
        } else {
            48u8
        };
        proof {
            assert(pad.subrange(0, k + 1).drop_last() =~= pad.subrange(0, k as int));
            assert(c == pad[k as int]);
            assert(is_digit(c));
        }
        f = f * 10 + (c - 48u8) as u64;
        k = k + 1;
    }
    proof {
        assert(pad.subrange(0, 4) =~= pad);
    }
    let mag: u64 = ip as u64 * 10000 + f;
    if mag > 0x7fff_ffff {
        return None;
    }
    if neg {
        Some(-(mag as i32))
    } else {
        Some(mag as i32)
    }
}

} // verus!
