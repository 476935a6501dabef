//! The ASCII wire format.
//!
//! Every payload of the system is ASCII text built from decimal integers and
//! the three separators `,` (cells within a row), `;` (rows) and `:` (the
//! timestamp prefix). This module gives the byte-level specification of that
//! text — decimal values, token splitting and joining — together with
//! verified parsing and serialization.

use vstd::prelude::*;

verus! {

/// `b','` — separates cells within a row.
pub const COMMA: u8 = 44;

/// `b':'` — separates the epoch-millisecond prefix from the payload.
pub const COLON: u8 = 58;

/// `b';'` — separates rows of the floor matrix.
pub const SEMICOLON: u8 = 59;

/// `b'\n'` — line terminator, stripped before cells are parsed.
pub const NEWLINE: u8 = 10;

/// `b'-'` — sign of a negative cell value.
pub const MINUS: u8 = 45;

/// `b'+'` — optional sign of a non-negative cell value.
pub const PLUS: u8 = 43;

pub open spec fn is_digit(b: u8) -> bool {
    48 <= b && b <= 57
}

pub open spec fn digit_val(b: u8) -> nat {
    (b - 48) as nat
}

/// A non-empty, all-digit byte string: the only shape `dec_value` is
/// meaningful on.
pub open spec fn is_dec(s: Seq<u8>) -> bool {
    s.len() > 0 && forall|i: int| 0 <= i < s.len() ==> is_digit(s[i])
}

/// The value of a digit string read as a base-10 numeral.
pub open spec fn dec_value(s: Seq<u8>) -> nat
    decreases s.len(),
{
    if s.len() == 0 {
        0
    } else {
        dec_value(s.drop_last()) * 10 + digit_val(s.last())
    }
}

/// The canonical decimal numeral of `n`: no leading zeros, at least one
/// digit.
pub open spec fn dec_digits(n: nat) -> Seq<u8>
    decreases n,
{
    if n < 10 {
        seq![(48 + n) as u8]
    } else {
        dec_digits(n / 10).push((48 + n % 10) as u8)
    }
}

/// Extending a digit string by one digit multiplies its value by ten.
pub proof fn lemma_dec_value_take_step(s: Seq<u8>, i: int)
    requires
        0 <= i < s.len(),
    ensures
        dec_value(s.take(i + 1)) == dec_value(s.take(i)) * 10 + digit_val(s[i]),
{
    assert(s.take(i + 1).drop_last() =~= s.take(i));
    assert(s.take(i + 1).last() == s[i]);
}

/// On an all-digit string, the value of a prefix never exceeds the value of
/// the whole string.
pub proof fn lemma_dec_value_prefix_le(s: Seq<u8>, i: int)
    requires
        0 <= i <= s.len(),
        forall|j: int| 0 <= j < s.len() ==> is_digit(s[j]),
    ensures
        dec_value(s.take(i)) <= dec_value(s),
    decreases s.len() - i,
{
    if i == s.len() {
        assert(s.take(i) =~= s);
    } else {
        lemma_dec_value_take_step(s, i);
        assert(dec_value(s.take(i)) * 10 >= dec_value(s.take(i)));
        lemma_dec_value_prefix_le(s, i + 1);
    }
}

/// Parses a base-10 numeral.
///
/// Returns the value exactly when the bytes are a non-empty digit string
/// whose value fits in `u128`; anything else is rejected.
pub fn parse_u128(s: &[u8]) -> (r: Option<u128>)
    ensures
        r is Some <==> is_dec(s@) && dec_value(s@) <= u128::MAX,
        r matches Some(v) ==> v as nat == dec_value(s@),
{
    if s.len() == 0 {
        return None;
    }
    let mut acc: u128 = 0;
    let mut i: usize = 0;
    while i < s.len()
        invariant
            0 <= i <= s@.len(),
            forall|j: int| 0 <= j < i ==> is_digit(s@[j]),
            acc as nat == dec_value(s@.take(i as int)),
        decreases s@.len() - i,
    {
        let b = s[i];
        if b < 48 || b > 57 {
            return None;
        }
        let d = (b - 48) as u128;
        let shifted = match acc.checked_mul(10) {
            Some(t) => t.checked_add(d),
            None => None,
        };
        match shifted {
            Some(next) => {
                proof {
                    lemma_dec_value_take_step(s@, i as int);
                }
                acc = next;
            },
            None => {
                proof {
                    lemma_dec_value_take_step(s@, i as int);
                    if is_dec(s@) {
                        lemma_dec_value_prefix_le(s@, i as int + 1);
                    }
                }
                return None;
            },
        }
        i += 1;
    }
    proof {
        assert(s@.take(i as int) =~= s@);
    }
    Some(acc)
}

/// A signed decimal token: an optional `-` or `+` sign followed by a
/// non-empty digit string.
pub open spec fn is_int_token(s: Seq<u8>) -> bool {
    if s.len() > 0 && (s[0] == MINUS || s[0] == PLUS) {
        is_dec(s.drop_first())
    } else {
        is_dec(s)
    }
}

/// The value of a signed decimal token.
pub open spec fn token_value(s: Seq<u8>) -> int {
    if s.len() > 0 && s[0] == MINUS {
        -(dec_value(s.drop_first()) as int)
    } else if s.len() > 0 && s[0] == PLUS {
        dec_value(s.drop_first()) as int
    } else {
        dec_value(s) as int
    }
}

/// The decimal representation of `v`: a `-` sign exactly when `v` is
/// negative, then the canonical numeral of its magnitude.
pub open spec fn int_repr(v: int) -> Seq<u8> {
    if v < 0 {
        seq![MINUS] + dec_digits((-v) as nat)
    } else {
        dec_digits(v as nat)
    }
}

/// Parses a signed decimal token as an `i32`.
///
/// Returns the value exactly when the bytes are a well-formed token whose
/// value is in `i32` range; anything else is rejected.
pub fn parse_i32(s: &[u8]) -> (r: Option<i32>)
    ensures
        r is Some <==> is_int_token(s@) && i32::MIN <= token_value(s@) <= i32::MAX,
        r matches Some(v) ==> v as int == token_value(s@),
{
    if s.len() == 0 {
        return None;
    }
    let b0 = s[0];
    let negative = b0 == MINUS;
    let digits = if b0 == MINUS || b0 == PLUS {
        let sub = vstd::slice::slice_subrange(s, 1, s.len());
        proof {
            assert(sub@ =~= s@.drop_first());
        }
        sub
    } else {
        proof {
            assert(s@.subrange(0, s@.len() as int) =~= s@);
        }
        vstd::slice::slice_subrange(s, 0, s.len())
    };
    match parse_u128(digits) {
        None => None,
        Some(m) => {
            if negative {
                if m > 2147483648 {
                    None
                } else if m == 2147483648 {
                    Some(i32::MIN)
                } else {
                    Some(-(m as i32))
                }
            } else {
                if m > 2147483647 {
                    None
                } else {
                    Some(m as i32)
                }
            }
        },
    }
}

/// Serializes `v` as a signed decimal token.
pub fn format_i32(v: i32) -> (r: Vec<u8>)
    ensures
        r@ == int_repr(v as int),
{
    if v >= 0 {
        format_u128(v as u128)
    } else {
        let magnitude = (-(v as i64)) as u128;
        let mut out: Vec<u8> = Vec::new();
        out.push(MINUS);
        let mut tail = format_u128(magnitude);
        out.append(&mut tail);
        proof {
            assert(out@ =~= int_repr(v as int));
        }
        out
    }
}

/// Serializes `n` as its canonical decimal numeral.
pub fn format_u128(n: u128) -> (r: Vec<u8>)
    ensures
        r@ == dec_digits(n as nat),
    decreases n,
{
    let d: u8 = 48 + (n % 10) as u8;
    if n < 10 {
        let mut v: Vec<u8> = Vec::new();
        v.push(d);
        proof {
            assert(v@ =~= dec_digits(n as nat));
        }
        v
    } else {
        let mut v = format_u128(n / 10);
        v.push(d);
        proof {
            assert(v@ =~= dec_digits(n as nat));
        }
        v
    }
}

/// The views of a sequence of byte vectors.
pub open spec fn views(ts: Seq<Vec<u8>>) -> Seq<Seq<u8>> {
    ts.map_values(|t: Vec<u8>| t@)
}

/// Splitting `s` at every occurrence of the delimiter `d`, with the
/// semantics of `str::split`: `n` delimiters yield `n + 1` tokens, so the
/// empty string yields one empty token and adjacent delimiters yield empty
/// tokens between them.
pub open spec fn split_bytes_spec(s: Seq<u8>, d: u8) -> Seq<Seq<u8>>
    decreases s.len(),
{
    if s.len() == 0 {
        seq![Seq::<u8>::empty()]
    } else {
        let rest = split_bytes_spec(s.drop_last(), d);
        if s.last() == d {
            rest.push(Seq::empty())
        } else {
            rest.update(rest.len() - 1, rest.last().push(s.last()))
        }
    }
}

/// A split always yields at least one token.
pub proof fn lemma_split_len_pos(s: Seq<u8>, d: u8)
    ensures
        split_bytes_spec(s, d).len() >= 1,
    decreases s.len(),
{
    if s.len() > 0 {
        lemma_split_len_pos(s.drop_last(), d);
    }
}

/// Splits `s` at every occurrence of `d`, with the semantics of
/// `str::split`.
pub fn split_bytes(s: &[u8], d: u8) -> (r: Vec<Vec<u8>>)
    ensures
        views(r@) == split_bytes_spec(s@, d),
{
    let mut tokens: Vec<Vec<u8>> = Vec::new();
    let mut cur: Vec<u8> = Vec::new();
    proof {
        assert(views(tokens@).push(cur@) =~~= split_bytes_spec(s@.take(0), d));
    }
    let mut i: usize = 0;
    while i < s.len()
        invariant
            i <= s@.len(),
            views(tokens@).push(cur@) =~~= split_bytes_spec(s@.take(i as int), d),
        decreases s@.len() - i,
    {
        let b = s[i];
        proof {
            assert(s@.take(i as int + 1).drop_last() =~= s@.take(i as int));
            assert(s@.take(i as int + 1).last() == s@[i as int]);
        }
        let ghost prev_tokens = tokens@;
        let ghost prev_cur = cur@;
        if b == d {
            tokens.push(cur);
            cur = Vec::new();
            proof {
                assert(views(tokens@) =~~= views(prev_tokens).push(prev_cur));
                assert(views(tokens@).push(cur@) =~~= split_bytes_spec(
                    s@.take(i as int + 1),
                    d,
                ));
            }
        } else {
            cur.push(b);
            proof {
                let rest = split_bytes_spec(s@.take(i as int), d);
                assert(rest.len() == views(prev_tokens).len() + 1);
                assert(views(tokens@).push(cur@) =~~= rest.update(
                    rest.len() - 1,
                    rest.last().push(s@[i as int]),
                ));
            }
        }
        i += 1;
    }
    proof {
        assert(s@.take(s@.len() as int) =~= s@);
    }
    tokens.push(cur);
    proof {
        assert(views(tokens@) =~~= split_bytes_spec(s@, d));
    }
    tokens
}

/// A string with a delimiter occurrence splits into at least two tokens.
pub proof fn lemma_split_len_ge2(s: Seq<u8>, d: u8, i: int)
    requires
        0 <= i < s.len(),
        s[i] == d,
    ensures
        split_bytes_spec(s, d).len() >= 2,
    decreases s.len(),
{
    lemma_split_len_pos(s.drop_last(), d);
    if s.last() != d {
        assert(i < s.len() - 1);
        lemma_split_len_ge2(s.drop_last(), d, i);
    }
}

/// The first token of a split is the prefix before the first delimiter
/// occurrence (the whole string when there is none).
pub proof fn lemma_split_first(s: Seq<u8>, d: u8, i: int)
    requires
        0 <= i <= s.len(),
        forall|t: int| 0 <= t < i ==> s[t] != d,
        i < s.len() ==> s[i] == d,
    ensures
        split_bytes_spec(s, d)[0] == s.take(i),
    decreases s.len(),
{
    if s.len() == 0 {
        assert(split_bytes_spec(s, d)[0] =~= s.take(0));
    } else {
        let rest = split_bytes_spec(s.drop_last(), d);
        lemma_split_len_pos(s.drop_last(), d);
        if s.last() == d {
            assert(i < s.len());
            lemma_split_first(s.drop_last(), d, i);
            assert(s.drop_last().take(i) =~= s.take(i));
        } else {
            if i == s.len() {
                assert forall|t: int|
                    0 <= t < s.drop_last().len() implies s.drop_last()[t] != d by {
                    assert(s.drop_last()[t] == s[t]);
                }
                lemma_split_all_clear(s.drop_last(), d);
                assert(split_bytes_spec(s, d)[0] == rest[0].push(s.last()));
                assert(rest[0].push(s.last()) =~= s.take(i));
            } else {
                assert(i < s.len() - 1);
                lemma_split_first(s.drop_last(), d, i);
                lemma_split_len_ge2(s.drop_last(), d, i);
                assert(split_bytes_spec(s, d)[0] == rest[0]);
                assert(s.drop_last().take(i) =~= s.take(i));
            }
        }
    }
}

/// A string without the delimiter splits into exactly one token: itself.
pub proof fn lemma_split_all_clear(s: Seq<u8>, d: u8)
    requires
        forall|t: int| 0 <= t < s.len() ==> s[t] != d,
    ensures
        split_bytes_spec(s, d).len() == 1,
        split_bytes_spec(s, d)[0] == s,
    decreases s.len(),
{
    if s.len() > 0 {
        assert forall|t: int| 0 <= t < s.drop_last().len() implies s.drop_last()[t] != d by {
            assert(s.drop_last()[t] == s[t]);
        }
        lemma_split_all_clear(s.drop_last(), d);
        assert(split_bytes_spec(s, d)[0] =~= s);
    }
}

/// Joining tokens with the delimiter `d` between adjacent tokens: the
/// inverse direction of `split_bytes_spec`.
pub open spec fn join_bytes_spec(parts: Seq<Seq<u8>>, d: u8) -> Seq<u8>
    decreases parts.len(),
{
    if parts.len() == 0 {
        Seq::empty()
    } else if parts.len() == 1 {
        parts[0]
    } else {
        join_bytes_spec(parts.drop_last(), d) + seq![d] + parts.last()
    }
}

/// Appending one more token to a non-empty join appends one delimiter and
/// the token.
pub proof fn lemma_join_push(parts: Seq<Seq<u8>>, d: u8, p: Seq<u8>)
    requires
        parts.len() >= 1,
    ensures
        join_bytes_spec(parts.push(p), d) == join_bytes_spec(parts, d) + seq![d] + p,
{
    assert(parts.push(p).drop_last() =~= parts);
    assert(parts.push(p).last() == p);
}

/// The mathematical view of an integer matrix.
pub open spec fn mat_view(m: Seq<Vec<i32>>) -> Seq<Seq<int>> {
    m.map_values(|row: Vec<i32>| row@.map_values(|x: i32| x as int))
}

/// ASCII bytes read as the characters with the same code points.
pub open spec fn ascii_chars(s: Seq<u8>) -> Seq<char> {
    s.map_values(|b: u8| b as char)
}

/// One matrix row on the wire: its cells' decimal tokens, comma-joined.
pub open spec fn row_repr(row: Seq<int>) -> Seq<u8> {
    join_bytes_spec(row.map_values(|v: int| int_repr(v)), COMMA)
}

/// A matrix on the wire: its rows, semicolon-joined.
pub open spec fn matrix_repr(m: Seq<Seq<int>>) -> Seq<u8> {
    join_bytes_spec(m.map_values(|r: Seq<int>| row_repr(r)), SEMICOLON)
}

/// A frame on the wire: the capture time in epoch milliseconds, a colon,
/// then the matrix.
pub open spec fn frame_repr(epoch: nat, m: Seq<Seq<int>>) -> Seq<u8> {
    dec_digits(epoch) + seq![COLON] + matrix_repr(m)
}

/// Every byte of a canonical numeral is a decimal digit.
pub proof fn lemma_dec_digits_are_digits(n: nat)
    ensures
        forall|i: int| 0 <= i < dec_digits(n).len() ==> is_digit(#[trigger] dec_digits(n)[i]),
    decreases n,
{
    if n >= 10 {
        lemma_dec_digits_are_digits(n / 10);
        assert forall|i: int| 0 <= i < dec_digits(n).len() implies is_digit(
            #[trigger] dec_digits(n)[i],
        ) by {
            if i < dec_digits(n / 10).len() {
                assert(is_digit(dec_digits(n / 10)[i]));
            } else {
                assert(dec_digits(n)[i] == (48 + n % 10) as u8);
            }
        }
    }
}

/// Every byte of a signed decimal token representation is ASCII.
pub proof fn lemma_int_repr_ascii(v: int)
    ensures
        forall|i: int| 0 <= i < int_repr(v).len() ==> #[trigger] int_repr(v)[i] < 128,
{
    if v < 0 {
        lemma_dec_digits_are_digits((-v) as nat);
    } else {
        lemma_dec_digits_are_digits(v as nat);
    }
}

/// Relies on `String::from_utf8`: bytes below 0x80 are valid UTF-8 and
/// decode to the characters with the same code points.
#[verifier::external_body]
pub(crate) fn ascii_bytes_to_string(v: Vec<u8>) -> (r: String)
    requires
        forall|i: int| 0 <= i < v@.len() ==> v@[i] < 128,
    ensures
        r@ == ascii_chars(v@),
{
    match String::from_utf8(v) {
        Ok(s) => s,
        Err(_) => String::new(),
    }
}

/// Serializes one cell row as comma-joined decimal tokens.
fn format_row(row: &Vec<i32>) -> (r: Vec<u8>)
    ensures
        r@ == row_repr(row@.map_values(|x: i32| x as int)),
        forall|i: int| 0 <= i < r@.len() ==> r@[i] < 128,
{
    let ghost target = row@.map_values(|x: i32| x as int);
    let mut out: Vec<u8> = Vec::new();
    proof {
        assert(target.take(0).map_values(|v: int| int_repr(v)) =~= Seq::<Seq<u8>>::empty());
    }
    let mut c: usize = 0;
    while c < row.len()
        invariant
            c <= row@.len(),
            target == row@.map_values(|x: i32| x as int),
            out@ == join_bytes_spec(target.take(c as int).map_values(|v: int| int_repr(v)), COMMA),
            forall|i: int| 0 <= i < out@.len() ==> out@[i] < 128,
        decreases row@.len() - c,
    {
        let ghost toks = target.take(c as int).map_values(|v: int| int_repr(v));
        if c > 0 {
            out.push(COMMA);
        }
        let mut cell = format_i32(row[c]);
        proof {
            lemma_int_repr_ascii(row@[c as int] as int);
        }
        out.append(&mut cell);
        proof {
            let toks2 = target.take(c as int + 1).map_values(|v: int| int_repr(v));
            assert(toks2 =~~= toks.push(int_repr(target[c as int])));
            if c > 0 {
                lemma_join_push(toks, COMMA, int_repr(target[c as int]));
            }
            assert(out@ =~= join_bytes_spec(toks2, COMMA));
        }
        c += 1;
    }
    proof {
        assert(target.take(target.len() as int) =~= target);
        assert(target.take(c as int).map_values(|v: int| int_repr(v)) =~~= target.map_values(
            |v: int| int_repr(v),
        ));
    }
    out
}

/// Serializes a frame: `"<epochMillis>:<row0>;<row1>;..."` with each row's
/// cells comma-joined. This is the one wire format of both transports and of
/// the replay log's payloads.
pub fn format_frame(epoch: u128, matrix: &Vec<Vec<i32>>) -> (r: String)
    ensures
        r@ == ascii_chars(frame_repr(epoch as nat, mat_view(matrix@))),
{
    let ghost target = mat_view(matrix@);
    let mut out: Vec<u8> = format_u128(epoch);
    proof {
        lemma_dec_digits_are_digits(epoch as nat);
    }
    out.push(COLON);
    let ghost head = dec_digits(epoch as nat) + seq![COLON];
    proof {
        assert(out@ =~= head);
        assert(target.take(0).map_values(|r: Seq<int>| row_repr(r))
            =~= Seq::<Seq<u8>>::empty());
    }
    let mut r: usize = 0;
    while r < matrix.len()
        invariant
            r <= matrix@.len(),
            target == mat_view(matrix@),
            head == dec_digits(epoch as nat) + seq![COLON],
            out@ == head + join_bytes_spec(
                target.take(r as int).map_values(|rw: Seq<int>| row_repr(rw)),
                SEMICOLON,
            ),
            forall|i: int| 0 <= i < out@.len() ==> out@[i] < 128,
        decreases matrix@.len() - r,
    {
        let ghost rows = target.take(r as int).map_values(|rw: Seq<int>| row_repr(rw));
        if r > 0 {
            out.push(SEMICOLON);
        }
        let mut row_bytes = format_row(&matrix[r]);
        out.append(&mut row_bytes);
        proof {
            let rows2 = target.take(r as int + 1).map_values(|rw: Seq<int>| row_repr(rw));
            assert(rows2 =~~= rows.push(row_repr(target[r as int])));
            if r > 0 {
                lemma_join_push(rows, SEMICOLON, row_repr(target[r as int]));
            }
            assert(out@ =~= head + join_bytes_spec(rows2, SEMICOLON));
        }
        r += 1;
    }
    proof {
        assert(target.take(target.len() as int) =~= target);
        assert(target.take(r as int).map_values(|rw: Seq<int>| row_repr(rw)) =~~= target
            .map_values(|rw: Seq<int>| row_repr(rw)));
        assert(out@ =~= frame_repr(epoch as nat, mat_view(matrix@)));
    }
    ascii_bytes_to_string(out)
}

/// All newline bytes of `s` removed.
pub open spec fn strip_nl(s: Seq<u8>) -> Seq<u8> {
    s.filter(|b: u8| b != NEWLINE)
}

/// Removes every newline byte of `s`.
pub fn strip_newlines(s: &[u8]) -> (r: Vec<u8>)
    ensures
        r@ == strip_nl(s@),
{
    let mut out: Vec<u8> = Vec::new();
    proof {
        reveal(Seq::filter);
        assert(out@ =~= s@.take(0).filter(|b: u8| b != NEWLINE));
    }
    let mut i: usize = 0;
    while i < s.len()
        invariant
            i <= s@.len(),
            out@ =~= s@.take(i as int).filter(|b: u8| b != NEWLINE),
        decreases s@.len() - i,
    {
        let b = s[i];
        proof {
            assert(s@.take(i as int + 1).drop_last() =~= s@.take(i as int));
            assert(s@.take(i as int + 1).last() == s@[i as int]);
        }
        if b != NEWLINE {
            out.push(b);
        }
        proof {
            reveal(Seq::filter);
            assert(out@ =~= s@.take(i as int + 1).filter(|b: u8| b != NEWLINE));
        }
        i += 1;
    }
    proof {
        assert(s@.take(s@.len() as int) =~= s@);
    }
    out
}

} // verus!
