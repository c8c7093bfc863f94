//! The textual side of the interchange format: splitting a line of bytes
//! into whitespace-separated tokens, reading each token as a decimal
//! integer, and rendering integers back into lines.

use vstd::prelude::*;

use crate::errors::ErrorKind;

verus! {

/// The bytes the format treats as whitespace: space, tab, LF, CR.
pub open spec fn is_ws(b: u8) -> bool {
    b == 32 || b == 9 || b == 10 || b == 13
}

/// The bytes `'0'` through `'9'`.
pub open spec fn is_digit(b: u8) -> bool {
    48 <= b && b <= 57
}

/// Length of the leading maximal run of non-whitespace bytes.
pub open spec fn token_end(s: Seq<u8>) -> int
    decreases s.len(),
{
    if s.len() == 0 || is_ws(s[0]) {
        0
    } else {
        1 + token_end(s.skip(1))
    }
}

pub proof fn lemma_token_end(s: Seq<u8>)
    ensures
        0 <= token_end(s) <= s.len(),
        forall|m: int| 0 <= m < token_end(s) ==> !is_ws(s[m]),
        token_end(s) < s.len() ==> is_ws(s[token_end(s)]),
    decreases s.len(),
{
    if s.len() > 0 && !is_ws(s[0]) {
        lemma_token_end(s.skip(1));
        assert forall|m: int| 0 <= m < token_end(s) implies !is_ws(s[m]) by {
            if m > 0 {
                assert(s.skip(1)[m - 1] == s[m]);
            }
        }
        if token_end(s) < s.len() {
            assert(s.skip(1)[token_end(s) - 1] == s[token_end(s)]);
        }
    }
}

/// The length of the leading token is pinned by its boundary.
pub proof fn lemma_token_end_is(s: Seq<u8>, k: int)
    requires
        0 <= k <= s.len(),
        forall|m: int| 0 <= m < k ==> !is_ws(s[m]),
        k < s.len() ==> is_ws(s[k]),
    ensures
        token_end(s) == k,
    decreases k,
{
    if k == 0 {
    } else {
        assert(!is_ws(s[0]));
        assert forall|m: int| 0 <= m < k - 1 implies !is_ws(s.skip(1)[m]) by {
            assert(s.skip(1)[m] == s[m + 1]);
        }
        if k - 1 < s.skip(1).len() {
            assert(s.skip(1)[k - 1] == s[k]);
        }
        lemma_token_end_is(s.skip(1), k - 1);
    }
}

/// The whitespace-separated tokens of a line, in order.
pub open spec fn tokens_of(s: Seq<u8>) -> Seq<Seq<u8>>
    decreases s.len(),
    via tokens_of_dec
{
    if s.len() == 0 {
        Seq::empty()
    } else if is_ws(s[0]) {
        tokens_of(s.skip(1))
    } else {
        seq![s.take(token_end(s))] + tokens_of(s.skip(token_end(s)))
    }
}

#[via_fn]
proof fn tokens_of_dec(s: Seq<u8>) {
    if s.len() > 0 && !is_ws(s[0]) {
        lemma_token_end(s);
    }
}

/// Whether every byte of `t` is a decimal digit.
pub open spec fn all_digits(t: Seq<u8>) -> bool {
    forall|i: int| 0 <= i < t.len() ==> is_digit(t[i])
}

/// The value of a digit string, most significant digit first.
pub open spec fn digits_val(t: Seq<u8>) -> int
    decreases t.len(),
{
    if t.len() == 0 {
        0
    } else {
        digits_val(t.drop_last()) * 10 + (t.last() - 48)
    }
}

pub proof fn lemma_digits_val_nonneg(t: Seq<u8>)
    requires
        all_digits(t),
    ensures
        digits_val(t) >= 0,
    decreases t.len(),
{
    if t.len() > 0 {
        lemma_digits_val_nonneg(t.drop_last());
    }
}

/// The integer a token denotes: an optional sign followed by digits.
pub open spec fn token_int(t: Seq<u8>) -> Option<int> {
    if t.len() >= 2 && (t[0] == 43 || t[0] == 45) && all_digits(t.skip(1)) {
        if t[0] == 45 {
            Option::Some(-digits_val(t.skip(1)))
        } else {
            Option::Some(digits_val(t.skip(1)))
        }
    } else if t.len() >= 1 && all_digits(t) {
        Option::Some(digits_val(t))
    } else {
        Option::None
    }
}

/// The token's value when it denotes an integer that fits in `i32`.
pub open spec fn i32_token(t: Seq<u8>) -> Option<i32> {
    match token_int(t) {
        Option::Some(v) => if i32::MIN <= v <= i32::MAX {
            Option::Some(v as i32)
        } else {
            Option::None
        },
        Option::None => Option::None,
    }
}

/// The integers on a line, or `None` when some token is not an
/// integer that fits in `i32`.
pub open spec fn line_ints(s: Seq<u8>) -> Option<Seq<i32>> {
    let ts = tokens_of(s);
    if forall|i: int| 0 <= i < ts.len() ==> (#[trigger] i32_token(ts[i])) is Some {
        Option::Some(Seq::new(ts.len(), |i: int| i32_token(ts[i])->0))
    } else {
        Option::None
    }
}

fn is_ws_byte(b: u8) -> (r: bool)
    ensures
        r == is_ws(b),
{
    b == 32 || b == 9 || b == 10 || b == 13
}

/// Splits a line into its whitespace-separated tokens.
pub fn tokenize(line: &Vec<u8>) -> (r: Vec<Vec<u8>>)
    ensures
        r.deep_view() == tokens_of(line@),
{
    let mut out: Vec<Vec<u8>> = Vec::new();
    let mut i: usize = 0;
    proof {
        assert(line@.skip(0) =~= line@);
        assert(out.deep_view() =~~= Seq::<Seq<u8>>::empty());
        assert(out.deep_view() + tokens_of(line@) =~= tokens_of(line@));
    }
    while i < line.len()
        invariant
            i <= line@.len(),
            out.deep_view() + tokens_of(line@.skip(i as int)) == tokens_of(line@),
        decreases line@.len() - i,
    {
        if is_ws_byte(line[i]) {
            proof {
                assert(line@.skip(i as int).skip(1) =~= line@.skip(i as int + 1));
            }
            i = i + 1;
        } else {
            let ghost start: int = i as int;
            let mut tok: Vec<u8> = Vec::new();
            while i < line.len() && !is_ws_byte(line[i])
                invariant
                    0 <= start <= i as int <= line@.len(),
                    tok@ =~= line@.subrange(start, i as int),
                    forall|m: int| start <= m < i as int ==> !is_ws(line@[m]),
                decreases line@.len() - i,
            {
                proof {
                    assert(line@.subrange(start, i as int + 1)
                        =~= line@.subrange(start, i as int).push(line@[i as int]));
                }
                tok.push(line[i]);
                i = i + 1;
            }
            proof {
                let rest = line@.skip(start);
                assert forall|m: int| 0 <= m < i as int - start implies !is_ws(rest[m]) by {
                    assert(rest[m] == line@[start + m]);
                }
                if i as int - start < rest.len() {
                    assert(rest[i as int - start] == line@[i as int]);
                }
                lemma_token_end_is(rest, i as int - start);
                assert(rest.take(i as int - start) =~= line@.subrange(start, i as int));
                assert(rest.skip(i as int - start) =~= line@.skip(i as int));
                assert(tokens_of(rest) == seq![tok@] + tokens_of(line@.skip(i as int)));
            }
            let ghost old_dv = out.deep_view();
            out.push(tok);
            proof {
                assert(out.deep_view() =~~= old_dv.push(tok@));
                assert(old_dv.push(tok@) + tokens_of(line@.skip(i as int))
                    =~= old_dv + (seq![tok@] + tokens_of(line@.skip(i as int))));
            }
        }
    }
    proof {
        assert(line@.skip(line@.len() as int) =~= Seq::<u8>::empty());
        assert(out.deep_view() + Seq::<Seq<u8>>::empty() =~= out.deep_view());
    }
    out
}

/// Reads one token as an `i32`, rejecting anything that is not an
/// optionally signed run of digits whose value fits.
pub fn parse_i32_token(t: &Vec<u8>) -> (r: Result<i32, ErrorKind>)
    ensures
        match r {
            Result::Ok(v) => i32_token(t@) == Option::Some(v),
            Result::Err(e) => i32_token(t@) is None && e == ErrorKind::ParseError,
        },
{
    let n = t.len();
    if n == 0 {
        return Result::Err(ErrorKind::ParseError);
    }
    let mut neg: bool = false;
    let mut off: usize = 0;
    if t[0] == 45 {
        neg = true;
        off = 1;
    } else if t[0] == 43 {
        off = 1;
    }
    if n == off {
        // a bare sign
        proof {
            assert(!is_digit(t@[0]));
            assert(!all_digits(t@));
        }
        return Result::Err(ErrorKind::ParseError);
    }
    let mut acc: u64 = 0;
    let mut ovf: bool = false;
    let mut j: usize = off;
    while j < n
        invariant
            off <= 1,
            off <= j <= n,
            n == t@.len(),
            off == 1 ==> (t@[0] == 43 || t@[0] == 45),
            off == 0 ==> !(t@[0] == 43 || t@[0] == 45),
            neg <==> (off == 1 && t@[0] == 45),
            n > off,
            all_digits(t@.subrange(off as int, j as int)),
            !ovf ==> acc == digits_val(t@.subrange(off as int, j as int)) && acc <= 0x8000_0000,
            ovf ==> digits_val(t@.subrange(off as int, j as int)) > 0x8000_0000,
        decreases n - j,
    {
        let b = t[j];
        if !(48 <= b && b <= 57) {
            proof {
                // the bad byte makes the token denote no integer
                assert(!is_digit(t@[j as int]));
                assert(token_int(t@) is None) by {
                    if t@.len() >= 2 && (t@[0] == 43 || t@[0] == 45) && all_digits(t@.skip(1)) {
                        assert(off == 1);
                        assert(t@.skip(1)[j as int - 1] == t@[j as int]);
                        assert(is_digit(t@.skip(1)[j as int - 1]));
                        assert(false);
                    }
                    if t@.len() >= 1 && all_digits(t@) {
                        assert(is_digit(t@[j as int]));
                        assert(false);
                    }
                };
                assert(i32_token(t@) is None);
            }
            return Result::Err(ErrorKind::ParseError);
        }
        proof {
            assert(t@.subrange(off as int, j as int + 1).drop_last()
                =~= t@.subrange(off as int, j as int));
            assert(t@.subrange(off as int, j as int + 1).last() == t@[j as int]);
            lemma_digits_val_nonneg(t@.subrange(off as int, j as int));
        }
        let d: u64 = (b - 48) as u64;
        if !ovf {
            let nacc: u64 = acc * 10 + d;
            if nacc > 0x8000_0000 {
                ovf = true;
            } else {
                acc = nacc;
            }
        }
        j = j + 1;
    }
    proof {
        if off == 1 {
            assert(t@.subrange(1, n as int) =~= t@.skip(1));
        } else {
            assert(t@.subrange(0, n as int) =~= t@);
        }
    }
    if ovf {
        return Result::Err(ErrorKind::ParseError);
    }
    if neg {
        let v: i64 = -(acc as i64);
        Result::Ok(v as i32)
    } else {
        if acc > 0x7fff_ffff {
            return Result::Err(ErrorKind::ParseError);
        }
        Result::Ok(acc as i32)
    }
}

/// Reads a whole line as whitespace-separated `i32` values.
pub fn parse_ints(line: &Vec<u8>) -> (r: Result<Vec<i32>, ErrorKind>)
    ensures
        match r {
            Result::Ok(v) => line_ints(line@) == Option::Some(v@),
            Result::Err(e) => line_ints(line@) is None && e == ErrorKind::ParseError,
        },
{
    let toks = tokenize(line);
    let ghost ts = tokens_of(line@);
    let mut vals: Vec<i32> = Vec::new();
    let mut idx: usize = 0;
    while idx < toks.len()
        invariant
            toks.deep_view() == ts,
            ts == tokens_of(line@),
            idx <= toks@.len(),
            toks@.len() == ts.len(),
            vals@.len() == idx,
            forall|i: int| 0 <= i < idx as int ==> i32_token(ts[i]) == Option::Some(vals@[i]),
        decreases toks@.len() - idx,
    {
        proof {
            assert(toks.deep_view()[idx as int] == toks@[idx as int].deep_view());
            assert(toks@[idx as int].deep_view() =~= toks@[idx as int]@);
        }
        match parse_i32_token(&toks[idx]) {
            Result::Ok(v) => {
                vals.push(v);
            },
            Result::Err(_) => {
                proof {
                    assert(!((i32_token(ts[idx as int])) is Some));
                }
                return Result::Err(ErrorKind::ParseError);
            },
        }
        idx = idx + 1;
    }
    proof {
        assert forall|i: int| 0 <= i < ts.len() implies (#[trigger] i32_token(ts[i])) is Some by {}
        assert(Seq::new(ts.len(), |i: int| i32_token(ts[i])->0) =~= vals@);
    }
    Result::Ok(vals)
}

/// Decimal digits of `n`, most significant first, for `n >= 0`.
pub open spec fn dec_rep(n: int) -> Seq<u8>
    decreases n,
{
    if n < 10 {
        seq![(48 + n) as u8]
    } else {
        dec_rep(n / 10).push((48 + n % 10) as u8)
    }
}

/// The token denoting `n`: digits, with a leading minus sign when negative.
pub open spec fn int_rep(n: int) -> Seq<u8> {
    if n < 0 {
        seq![45u8] + dec_rep(-n)
    } else {
        dec_rep(n)
    }
}

pub proof fn lemma_dec_rep(n: int)
    requires
        n >= 0,
    ensures
        dec_rep(n).len() >= 1,
        all_digits(dec_rep(n)),
        digits_val(dec_rep(n)) == n,
    decreases n,
{
    if n < 10 {
        let t = seq![(48 + n) as u8];
        assert(t.len() == 1);
        assert(t.last() == (48 + n) as u8);
        assert(t.drop_last() =~= Seq::<u8>::empty());
        assert(digits_val(Seq::<u8>::empty()) == 0);
        assert(digits_val(t) == digits_val(t.drop_last()) * 10 + (t.last() - 48));
        assert(t.last() == 48 + n);
    } else {
        lemma_dec_rep(n / 10);
        vstd::arithmetic::div_mod::lemma_fundamental_div_mod(n, 10);
        let s = dec_rep(n / 10);
        let t = s.push((48 + n % 10) as u8);
        assert(t.drop_last() =~= s);
        assert(digits_val(t) == digits_val(s) * 10 + (t.last() - 48));
        assert forall|i: int| 0 <= i < t.len() implies is_digit(t[i]) by {
            if i < s.len() {
                assert(t[i] == s[i]);
            }
        }
    }
}

pub proof fn lemma_int_rep_token(n: int)
    ensures
        int_rep(n).len() >= 1,
        forall|m: int| 0 <= m < int_rep(n).len() ==> !is_ws(#[trigger] int_rep(n)[m]),
        token_int(int_rep(n)) == Option::Some(n),
{
    if n < 0 {
        lemma_dec_rep(-n);
        let t = seq![45u8] + dec_rep(-n);
        assert(t[0] == 45);
        assert(t.skip(1) =~= dec_rep(-n));
        assert(t.len() >= 2);
        assert(token_int(t) == Option::Some(-digits_val(dec_rep(-n))));
        assert forall|m: int| 0 <= m < t.len() implies !is_ws(t[m]) by {
            if m > 0 {
                assert(is_digit(dec_rep(-n)[m - 1]));
            }
        }
    } else {
        lemma_dec_rep(n);
        let t = dec_rep(n);
        assert(is_digit(t[0]));
        assert(!(t[0] == 43 || t[0] == 45));
        assert(token_int(t) == Option::Some(digits_val(t)));
        assert forall|m: int| 0 <= m < t.len() implies !is_ws(t[m]) by {
            assert(is_digit(t[m]));
        }
    }
}

/// The line holding `vals`, separated by single spaces.
pub open spec fn join_ints(vals: Seq<int>) -> Seq<u8>
    decreases vals.len(),
{
    if vals.len() == 0 {
        Seq::empty()
    } else if vals.len() == 1 {
        int_rep(vals[0])
    } else {
        int_rep(vals[0]) + seq![32u8] + join_ints(vals.skip(1))
    }
}

/// A space-terminated token at the front of a line is its first token.
pub proof fn lemma_tokens_prepend(tok: Seq<u8>, rest: Seq<u8>)
    requires
        tok.len() >= 1,
        forall|m: int| 0 <= m < tok.len() ==> !is_ws(#[trigger] tok[m]),
    ensures
        tokens_of(tok + seq![32u8] + rest) == seq![tok] + tokens_of(rest),
{
    let s = tok + seq![32u8] + rest;
    assert forall|m: int| 0 <= m < tok.len() implies !is_ws(s[m]) by {
        assert(s[m] == tok[m]);
    }
    assert(s[tok.len() as int] == 32);
    lemma_token_end_is(s, tok.len() as int);
    assert(s.take(tok.len() as int) =~= tok);
    assert(s.skip(tok.len() as int) =~= seq![32u8] + rest);
    assert((seq![32u8] + rest)[0] == 32);
    assert((seq![32u8] + rest).skip(1) =~= rest);
    assert(tokens_of(seq![32u8] + rest) == tokens_of(rest));
    assert(s.len() > 0);
    assert(!is_ws(s[0]));
    assert(tokens_of(s) == seq![s.take(token_end(s))] + tokens_of(s.skip(token_end(s))));
}

/// A line that is one whole token has exactly that token.
pub proof fn lemma_tokens_single(tok: Seq<u8>)
    requires
        tok.len() >= 1,
        forall|m: int| 0 <= m < tok.len() ==> !is_ws(#[trigger] tok[m]),
    ensures
        tokens_of(tok) == seq![tok],
{
    lemma_token_end_is(tok, tok.len() as int);
    assert(tok.take(tok.len() as int) =~= tok);
    assert(tok.skip(tok.len() as int) =~= Seq::<u8>::empty());
    assert(seq![tok] + tokens_of(Seq::<u8>::empty()) =~= seq![tok]);
}

/// Tokenizing a joined line gives back the rendered tokens.
pub proof fn lemma_join_tokens(vals: Seq<int>)
    ensures
        tokens_of(join_ints(vals)) == vals.map_values(|v: int| int_rep(v)),
    decreases vals.len(),
{
    let f = |v: int| int_rep(v);
    if vals.len() == 0 {
        assert(vals.map_values(f) =~= Seq::<Seq<u8>>::empty());
    } else if vals.len() == 1 {
        lemma_int_rep_token(vals[0]);
        lemma_tokens_single(int_rep(vals[0]));
        assert(vals.map_values(f) =~= seq![int_rep(vals[0])]);
    } else {
        lemma_int_rep_token(vals[0]);
        lemma_join_tokens(vals.skip(1));
        lemma_tokens_prepend(int_rep(vals[0]), join_ints(vals.skip(1)));
        assert(seq![int_rep(vals[0])] + vals.skip(1).map_values(f) =~= vals.map_values(f));
    }
}

/// Parsing a joined line of in-range values gives those values back.
pub proof fn lemma_line_ints_join(vals: Seq<int>)
    requires
        forall|i: int| 0 <= i < vals.len() ==> i32::MIN <= #[trigger] vals[i] <= i32::MAX,
    ensures
        line_ints(join_ints(vals)) == Option::Some(Seq::new(vals.len(), |i: int| vals[i] as i32)),
{
    lemma_join_tokens(vals);
    let f = |v: int| int_rep(v);
    let ts = tokens_of(join_ints(vals));
    assert forall|i: int| 0 <= i < ts.len() implies (#[trigger] i32_token(ts[i]))
        == Option::Some(vals[i] as i32) by {
        assert(ts[i] == f(vals[i]));
        lemma_int_rep_token(vals[i]);
    }
    assert(Seq::new(ts.len(), |i: int| i32_token(ts[i])->0)
        =~= Seq::new(vals.len(), |i: int| vals[i] as i32));
}

/// Appends the decimal digits of `n` to `out`.
pub fn push_dec(n: u64, out: &mut Vec<u8>)
    ensures
        final(out)@ == old(out)@ + dec_rep(n as int),
    decreases n,
{
    if n < 10 {
        out.push((48 + n) as u8);
        proof {
            assert(out@ =~= old(out)@ + dec_rep(n as int));
        }
    } else {
        push_dec(n / 10, out);
        let d: u8 = (48 + (n % 10)) as u8;
        out.push(d);
        proof {
            assert(n as int / 10 == (n / 10) as int);
            assert(n as int % 10 == (n % 10) as int);
            assert(out@ =~= old(out)@ + dec_rep(n as int));
        }
    }
}

/// Appends the token for `v`, sign included, to `out`.
pub fn push_int(v: i64, out: &mut Vec<u8>)
    ensures
        final(out)@ == old(out)@ + int_rep(v as int),
{
    if v < 0 {
        out.push(45u8);
        let m: u64 = (-(v as i128)) as u64;
        push_dec(m, out);
        proof {
            assert(out@ =~= old(out)@ + int_rep(v as int));
        }
    } else {
        push_dec(v as u64, out);
    }
}

/// Builds the line holding `vals` separated by single spaces.
pub fn join_line(vals: &Vec<i64>) -> (r: Vec<u8>)
    ensures
        r@ == join_ints(vals@.map_values(|v: i64| v as int)),
{
    let mut out: Vec<u8> = Vec::new();
    append_join(vals, 0, &mut out);
    proof {
        assert(vals@.map_values(|v: i64| v as int).skip(0)
            =~= vals@.map_values(|v: i64| v as int));
    }
    out
}

fn append_join(vals: &Vec<i64>, k: usize, out: &mut Vec<u8>)
    requires
        k <= vals@.len(),
    ensures
        final(out)@ == old(out)@ + join_ints(vals@.map_values(|v: i64| v as int).skip(k as int)),
    decreases vals@.len() - k,
{
    let ghost iv = vals@.map_values(|v: i64| v as int);
    if k == vals.len() {
        proof {
            assert(iv.skip(k as int) =~= Seq::<int>::empty());
            assert(out@ =~= old(out)@ + Seq::<u8>::empty());
        }
    } else {
        push_int(vals[k], out);
        proof {
            assert(iv.skip(k as int)[0] == iv[k as int]);
        }
        if k + 1 < vals.len() {
            out.push(32u8);
            let ghost mid = out@;
            append_join(vals, k + 1, out);
            proof {
                assert(iv.skip(k as int).skip(1) =~= iv.skip(k as int + 1));
                assert(iv.skip(k as int).len() >= 2);
                assert(out@ =~= old(out)@ + (int_rep(iv[k as int]) + seq![32u8]
                    + join_ints(iv.skip(k as int + 1))));
            }
        } else {
            proof {
                assert(iv.skip(k as int).len() == 1);
                assert(out@ =~= old(out)@ + join_ints(iv.skip(k as int)));
            }
        }
    }
}

} // verus!
