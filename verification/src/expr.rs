//! The index-expression language: tokenizer and resolver.
//!
//! An expression is split once on `;` into a row half and a column half.
//! Each half is tokenized into numbers, commas, range markers (`~`) and the
//! wildcard marker (`_`), and then resolved into a sequence of [`Selector`]s.

use crate::errors::{Axis, Error};
use vstd::prelude::*;
use vstd::string::*;

verus! {

/// A primitive token of one axis of an index expression.
#[derive(Clone, Copy, Debug, PartialEq, Eq, Structural)]
pub enum Token {
    /// A signed integer literal.
    Num(i64),
    /// A `,` separator.
    Comma,
    /// A `~` range marker.
    Range,
    /// A `_` wildcard marker.
    Any,
}

/// One edge of a range selector.
#[derive(Clone, Copy, Debug, PartialEq, Eq, Structural)]
pub enum Limit {
    /// The edge is the given signed 1-based index.
    Bounded(i64),
    /// The edge extends to the start (lower) or end (upper) of the axis.
    Unbounded,
}

/// One resolved selector of an axis.
#[derive(Clone, Copy, Debug, PartialEq, Eq, Structural)]
pub enum Selector {
    /// A single signed 1-based index.
    Single(i64),
    /// An inclusive range between two limits.
    Range(Limit, Limit),
    /// The whole axis.
    Wildcard,
}

pub open spec fn is_digit(c: char) -> bool {
    48 <= c as u32 && c as u32 <= 57
}

/// The value of a decimal digit character (48 is the code point of `0`).
pub open spec fn digit_val(c: char) -> int {
    c as u32 - 48
}

pub open spec fn all_digits(s: Seq<char>) -> bool {
    forall|i: int| 0 <= i < s.len() ==> is_digit(#[trigger] s[i])
}

/// The value of a sequence of decimal digits, most significant first.
pub open spec fn digits_val(s: Seq<char>) -> int
    decreases s.len(),
{
    if s.len() == 0 {
        0
    } else {
        digits_val(s.drop_last()) * 10 + digit_val(s.last())
    }
}

/// Whether `s` is `-? digit+`.
pub open spec fn is_int_literal(s: Seq<char>) -> bool {
    if s.len() > 0 && s[0] == '-' {
        s.len() >= 2 && all_digits(s.skip(1))
    } else {
        s.len() >= 1 && all_digits(s)
    }
}

pub open spec fn int_literal_val(s: Seq<char>) -> int {
    if s.len() > 0 && s[0] == '-' {
        -digits_val(s.skip(1))
    } else {
        digits_val(s)
    }
}

/// The numeric value of a literal, or `None` when it is malformed or does
/// not fit in an `i64`.
pub open spec fn int_of_literal(s: Seq<char>) -> Option<i64> {
    if is_int_literal(s) && i64::MIN <= int_literal_val(s) <= i64::MAX {
        Some(int_literal_val(s) as i64)
    } else {
        None
    }
}

proof fn lemma_digits_val_nonneg(s: Seq<char>)
    requires
        all_digits(s),
    ensures
        digits_val(s) >= 0,
    decreases s.len(),
{
    if s.len() > 0 {
        assert(all_digits(s.drop_last()));
        lemma_digits_val_nonneg(s.drop_last());
    }
}

/// A digit string is worth at least any of its prefixes.
proof fn lemma_digits_val_prefix_le(s: Seq<char>, i: int)
    requires
        all_digits(s),
        0 <= i <= s.len(),
    ensures
        digits_val(s.take(i)) <= digits_val(s),
    decreases s.len() - i,
{
    if i == s.len() {
        assert(s.take(i) =~= s);
    } else {
        assert(s.take(i + 1).drop_last() =~= s.take(i));
        assert(all_digits(s.take(i)));
        lemma_digits_val_nonneg(s.take(i));
        assert(digits_val(s.take(i + 1)) == digits_val(s.take(i)) * 10 + digit_val(s[i]));
        lemma_digits_val_prefix_le(s, i + 1);
    }
}

/// Parses the accumulated numeric buffer as a signed decimal integer.
fn parse_literal(buf: &Vec<char>) -> (r: Option<i64>)
    ensures
        r == int_of_literal(buf@),
{
    let n = buf.len();
    if n == 0 {
        return None;
    }
    let neg = buf[0] == '-';
    let start: usize = if neg {
        1
    } else {
        0
    };
    if start >= n {
        return None;
    }
    let ghost digits = if neg {
        buf@.skip(1)
    } else {
        buf@
    };
    let mut acc: i64 = 0;
    let mut i: usize = start;
    while i < n
        invariant
            start <= i <= n,
            n == buf@.len(),
            start == if neg { 1int } else { 0int },
            start < n,
            neg == (buf@[0] == '-'),
            digits == if neg { buf@.skip(1) } else { buf@ },
            all_digits(digits.take(i - start)),
            acc == if neg { -digits_val(digits.take(i - start)) } else { digits_val(digits.take(i - start)) },
        decreases n - i,
    {
        let c = buf[i];
        let u = c as u32;
        if u < 48 || u > 57 {
            assert(digits[i - start] == buf@[i as int]);
            assert(!is_digit(buf@[i as int]));
            assert(!all_digits(digits));
            return None;
        }
        let d = (u - 48) as i64;
        proof {
            assert(digits[i - start] == buf@[i as int]);
            assert(is_digit(digits[i - start]));
            assert(digits.take(i + 1 - start).drop_last() =~= digits.take(i - start));
            assert(digits.take(i + 1 - start).last() == digits[i - start]);
            assert(digits_val(digits.take(i + 1 - start)) == digits_val(digits.take(i - start)) * 10
                + digit_val(digits[i - start]));
            assert(all_digits(digits.take(i + 1 - start)));
        }
        let ghost next_val: int = if neg {
            -digits_val(digits.take(i + 1 - start))
        } else {
            digits_val(digits.take(i + 1 - start))
        };
        let stepped: Option<i64> = if neg {
            match acc.checked_mul(10) {
                Some(x) => x.checked_sub(d),
                None => None,
            }
        } else {
            match acc.checked_mul(10) {
                Some(x) => x.checked_add(d),
                None => None,
            }
        };
        match stepped {
            Some(x) => {
                acc = x;
                assert(acc == next_val);
            }
            None => {
                // The value no longer fits in an i64; it can only move
                // further from zero as more digits arrive.
                proof {
                    lemma_digits_val_nonneg(digits.take(i - start));
                    assert(if neg { next_val < i64::MIN } else { next_val > i64::MAX });
                    if all_digits(digits) {
                        lemma_digits_val_prefix_le(digits, i + 1 - start);
                    }
                }
                return None;
            }
        }
        i += 1;
    }
    proof {
        assert(digits.take(n - start) =~= digits);
        assert(is_int_literal(buf@));
        assert(int_literal_val(buf@) == acc as int);
    }
    Some(acc)
}

/// Flushing the numeric buffer: an empty buffer adds nothing, a non-empty
/// one must parse and adds one `Num` token.
pub open spec fn flush_buf(buf: Seq<char>, acc: Seq<Token>) -> Option<Seq<Token>> {
    if buf.len() == 0 {
        Some(acc)
    } else {
        match int_of_literal(buf) {
            Some(n) => Some(acc.push(Token::Num(n))),
            None => None,
        }
    }
}

/// The tokenizer, one character at a time from position `i`, carrying the
/// numeric buffer `buf` and the tokens `acc` emitted so far. `None` is a
/// grammar violation.
pub open spec fn tokenize_from(s: Seq<char>, i: int, buf: Seq<char>, acc: Seq<Token>) -> Option<
    Seq<Token>,
>
    decreases s.len() - i,
{
    if i < 0 || i >= s.len() {
        flush_buf(buf, acc)
    } else if s[i] == '-' || is_digit(s[i]) {
        tokenize_from(s, i + 1, buf.push(s[i]), acc)
    } else if s[i] == ',' {
        match flush_buf(buf, acc) {
            Some(a) => tokenize_from(s, i + 1, Seq::empty(), a.push(Token::Comma)),
            None => None,
        }
    } else if s[i] == '~' {
        match flush_buf(buf, acc) {
            Some(a) => tokenize_from(s, i + 1, Seq::empty(), a.push(Token::Range)),
            None => None,
        }
    } else if s[i] == '_' {
        // The wildcard stops the scan; the pending buffer is still finalized.
        flush_buf(buf, acc.push(Token::Any))
    } else {
        None
    }
}

pub open spec fn tokenize_spec(s: Seq<char>) -> Option<Seq<Token>> {
    tokenize_from(s, 0, Seq::empty(), Seq::empty())
}

/// Turns one axis substring into primitive tokens. Errors are reported
/// against `axis`.
pub fn tokenize(s: &str, axis: Axis) -> (r: Result<Vec<Token>, Error>)
    ensures
        match r {
            Ok(ts) => tokenize_spec(s@) == Some(ts@),
            Err(e) => tokenize_spec(s@) is None && e == Error::InvalidExpression(axis),
        },
{
    let len = s.unicode_len();
    let mut toks: Vec<Token> = Vec::new();
    let mut buf: Vec<char> = Vec::new();
    let mut i: usize = 0;
    while i < len
        invariant
            i <= len,
            len == s@.len(),
            tokenize_spec(s@) == tokenize_from(s@, i as int, buf@, toks@),
        decreases len - i,
    {
        let ghost buf0 = buf@;
        let ghost toks0 = toks@;
        let c = s.get_char(i);
        let u = c as u32;
        if c == '-' || (48 <= u && u <= 57) {
            buf.push(c);
            proof {
                assert(tokenize_from(s@, i as int, buf0, toks0) == tokenize_from(
                    s@,
                    i + 1,
                    buf@,
                    toks@,
                ));
            }
        } else if c == ',' {
            if parse_buffer(&mut buf, &mut toks) {
                toks.push(Token::Comma);
                proof {
                    assert(buf@ =~= Seq::<char>::empty());
                    assert(tokenize_from(s@, i as int, buf0, toks0) == tokenize_from(
                        s@,
                        i + 1,
                        buf@,
                        toks@,
                    ));
                }
            } else {
                return Err(Error::InvalidExpression(axis));
            }
        } else if c == '~' {
            if parse_buffer(&mut buf, &mut toks) {
                toks.push(Token::Range);
                proof {
                    assert(buf@ =~= Seq::<char>::empty());
                    assert(tokenize_from(s@, i as int, buf0, toks0) == tokenize_from(
                        s@,
                        i + 1,
                        buf@,
                        toks@,
                    ));
                }
            } else {
                return Err(Error::InvalidExpression(axis));
            }
        } else if c == '_' {
            toks.push(Token::Any);
            if parse_buffer(&mut buf, &mut toks) {
                return Ok(toks);
            } else {
                return Err(Error::InvalidExpression(axis));
            }
        } else {
            return Err(Error::InvalidExpression(axis));
        }
        i += 1;
    }
    match parse_buffer(&mut buf, &mut toks) {
        true => Ok(toks),
        false => Err(Error::InvalidExpression(axis)),
    }
}

/// The resolver, grouping tokens into selectors from position `i` with one
/// token of lookahead. A wildcard discards everything accumulated and is
/// terminal for its axis. `None` is a grammar violation.
pub open spec fn resolve_from(ts: Seq<Token>, i: int, acc: Seq<Selector>) -> Option<Seq<Selector>>
    decreases ts.len() - i,
{
    if i < 0 || i >= ts.len() {
        Some(acc)
    } else {
        match ts[i] {
            Token::Num(n) => {
                if i + 1 < ts.len() && ts[i + 1] == Token::Range {
                    if i + 2 >= ts.len() {
                        Some(acc.push(Selector::Range(Limit::Bounded(n), Limit::Unbounded)))
                    } else {
                        match ts[i + 2] {
                            Token::Comma => resolve_from(
                                ts,
                                i + 3,
                                acc.push(Selector::Range(Limit::Bounded(n), Limit::Unbounded)),
                            ),
                            Token::Num(m) => resolve_from(
                                ts,
                                i + 3,
                                acc.push(Selector::Range(Limit::Bounded(n), Limit::Bounded(m))),
                            ),
                            _ => None,
                        }
                    }
                } else {
                    resolve_from(ts, i + 1, acc.push(Selector::Single(n)))
                }
            },
            Token::Comma => resolve_from(ts, i + 1, acc),
            Token::Range => {
                if i + 1 < ts.len() {
                    match ts[i + 1] {
                        Token::Num(m) => resolve_from(
                            ts,
                            i + 2,
                            acc.push(Selector::Range(Limit::Unbounded, Limit::Bounded(m))),
                        ),
                        _ => None,
                    }
                } else {
                    None
                }
            },
            Token::Any => Some(seq![Selector::Wildcard]),
        }
    }
}

pub open spec fn resolve_spec(ts: Seq<Token>) -> Option<Seq<Selector>> {
    resolve_from(ts, 0, Seq::empty())
}

/// Groups one axis' tokens into selectors. Errors are reported against
/// `axis`.
pub fn resolve(tokens: &Vec<Token>, axis: Axis) -> (r: Result<Vec<Selector>, Error>)
    ensures
        match r {
            Ok(sels) => resolve_spec(tokens@) == Some(sels@),
            Err(e) => resolve_spec(tokens@) is None && e == Error::InvalidExpression(axis),
        },
{
    let n = tokens.len();
    let mut res: Vec<Selector> = Vec::new();
    let mut i: usize = 0;
    while i < n
        invariant
            i <= n,
            n == tokens@.len(),
            resolve_spec(tokens@) == resolve_from(tokens@, i as int, res@),
        decreases n - i,
    {
        let ghost res0 = res@;
        match tokens[i] {
            Token::Num(num) => {
                if i + 1 < n && tokens[i + 1] == Token::Range {
                    if i + 2 >= n {
                        res.push(Selector::Range(Limit::Bounded(num), Limit::Unbounded));
                        i = n;
                    } else {
                        match tokens[i + 2] {
                            Token::Comma => {
                                res.push(Selector::Range(Limit::Bounded(num), Limit::Unbounded));
                                proof {
                                    assert(resolve_from(tokens@, i as int, res0) == resolve_from(
                                        tokens@,
                                        i + 3,
                                        res@,
                                    ));
                                }
                                i += 3;
                            },
                            Token::Num(m) => {
                                res.push(Selector::Range(Limit::Bounded(num), Limit::Bounded(m)));
                                proof {
                                    assert(resolve_from(tokens@, i as int, res0) == resolve_from(
                                        tokens@,
                                        i + 3,
                                        res@,
                                    ));
                                }
                                i += 3;
                            },
                            _ => {
                                return Err(Error::InvalidExpression(axis));
                            },
                        }
                    }
                } else {
                    res.push(Selector::Single(num));
                    proof {
                        assert(resolve_from(tokens@, i as int, res0) == resolve_from(
                            tokens@,
                            i + 1,
                            res@,
                        ));
                    }
                    i += 1;
                }
            },
            Token::Comma => {
                i += 1;
            },
            Token::Range => {
                if i + 1 < n {
                    match tokens[i + 1] {
                        Token::Num(m) => {
                            res.push(Selector::Range(Limit::Unbounded, Limit::Bounded(m)));
                            proof {
                                assert(resolve_from(tokens@, i as int, res0) == resolve_from(
                                    tokens@,
                                    i + 2,
                                    res@,
                                ));
                            }
                            i += 2;
                        },
                        _ => {
                            return Err(Error::InvalidExpression(axis));
                        },
                    }
                } else {
                    return Err(Error::InvalidExpression(axis));
                }
            },
            Token::Any => {
                res.clear();
                res.push(Selector::Wildcard);
                proof {
                    assert(res@ =~= seq![Selector::Wildcard]);
                }
                return Ok(res);
            },
        }
    }
    Ok(res)
}

/// The first position of `c` in `s` at or after `i`, or the length of `s`
/// when there is none.
pub open spec fn find_char_from(s: Seq<char>, c: char, i: int) -> int
    decreases s.len() - i,
{
    if i < 0 || i >= s.len() {
        s.len() as int
    } else if s[i] == c {
        i
    } else {
        find_char_from(s, c, i + 1)
    }
}

fn find_char(s: &str, c: char, from: usize) -> (p: usize)
    requires
        from <= s@.len(),
    ensures
        p == find_char_from(s@, c, from as int),
        from <= p <= s@.len(),
{
    let len = s.unicode_len();
    let mut i: usize = from;
    while i < len
        invariant
            from <= i <= len,
            len == s@.len(),
            find_char_from(s@, c, from as int) == find_char_from(s@, c, i as int),
        decreases len - i,
    {
        if s.get_char(i) == c {
            return i;
        }
        i += 1;
    }
    len
}

/// One axis, from tokens to selectors.
pub open spec fn parse_axis(s: Seq<char>) -> Option<Seq<Selector>> {
    match tokenize_spec(s) {
        Some(ts) => resolve_spec(ts),
        None => None,
    }
}

/// Splits a whole expression into its row half (before the first `;`) and
/// its column half (between the first and second `;`); text after a second
/// `;` is ignored. `None` when there is no `;` at all.
pub open spec fn split_expr(s: Seq<char>) -> Option<(Seq<char>, Seq<char>)> {
    let p = find_char_from(s, ';', 0);
    if p == s.len() {
        None
    } else {
        Some((s.take(p), s.subrange(p + 1, find_char_from(s, ';', p + 1))))
    }
}

/// What `parse_idx` returns: the row and column selector sequences, or the
/// first error, row axis first.
pub open spec fn parse_idx_spec(s: Seq<char>) -> Result<(Seq<Selector>, Seq<Selector>), Error> {
    match split_expr(s) {
        None => Err(Error::InvalidExpression(Axis::Col)),
        Some((row, col)) => match parse_axis(row) {
            None => Err(Error::InvalidExpression(Axis::Row)),
            Some(rs) => match parse_axis(col) {
                None => Err(Error::InvalidExpression(Axis::Col)),
                Some(cs) => Ok((rs, cs)),
            },
        },
    }
}

/// Parses a whole index expression, `row-half;column-half`, into the two
/// resolved selector sequences.
pub fn parse_idx(raw_idx: &str) -> (r: Result<(Vec<Selector>, Vec<Selector>), Error>)
    ensures
        match r {
            Ok(p) => parse_idx_spec(raw_idx@) == Ok::<(Seq<Selector>, Seq<Selector>), Error>(
                (p.0@, p.1@),
            ),
            Err(e) => parse_idx_spec(raw_idx@) == Err::<(Seq<Selector>, Seq<Selector>), Error>(e),
        },
{
    let len = raw_idx.unicode_len();
    let p = find_char(raw_idx, ';', 0);
    if p == len {
        return Err(Error::InvalidExpression(Axis::Col));
    }
    let q = find_char(raw_idx, ';', p + 1);
    let row_str = raw_idx.substring_char(0, p);
    let col_str = raw_idx.substring_char(p + 1, q);
    let row_sels = match tokenize(row_str, Axis::Row) {
        Ok(ts) => match resolve(&ts, Axis::Row) {
            Ok(sels) => sels,
            Err(e) => {
                return Err(e);
            },
        },
        Err(e) => {
            return Err(e);
        },
    };
    let col_sels = match tokenize(col_str, Axis::Col) {
        Ok(ts) => match resolve(&ts, Axis::Col) {
            Ok(sels) => sels,
            Err(e) => {
                return Err(e);
            },
        },
        Err(e) => {
            return Err(e);
        },
    };
    Ok((row_sels, col_sels))
}

/// Empties the numeric buffer into the token list, as `flush_buf` says.
fn parse_buffer(buf: &mut Vec<char>, toks: &mut Vec<Token>) -> (ok: bool)
    ensures
        ok ==> flush_buf(old(buf)@, old(toks)@) == Some(final(toks)@) && final(buf)@.len() == 0,
        !ok ==> flush_buf(old(buf)@, old(toks)@) is None,
{
    if buf.len() == 0 {
        return true;
    }
    match parse_literal(buf) {
        Some(n) => {
            toks.push(Token::Num(n));
            buf.clear();
            true
        },
        None => false,
    }
}

} // verus!
