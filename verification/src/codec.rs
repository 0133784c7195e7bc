//! Text codec for integer vectors. A vector is rendered as its debug-list
//! form, `[v0, v1, ...]` in ASCII bytes, and read back by stripping exactly
//! the first and last byte, splitting on the literal `", "` separator, and
//! parsing each piece as a signed 32-bit decimal integer. The reader is
//! deliberately positional rather than bracket-aware: benchmark fixtures
//! depend on this exact byte format, so it is specified and preserved
//! as is, fragility included.

use vstd::prelude::*;

verus! {

/// ASCII decimal digit.
pub open spec fn is_digit(b: u8) -> bool {
    48 <= b <= 57
}

/// Every byte is an ASCII digit.
pub open spec fn all_digits(s: Seq<u8>) -> bool {
    forall|i: int| 0 <= i < s.len() ==> is_digit(#[trigger] s[i])
}

/// The value of a digit string read left to right.
pub open spec fn digits_val(s: Seq<u8>) -> int
    decreases s.len(),
{
    if s.len() == 0 {
        0
    } else {
        digits_val(s.drop_last()) * 10 + (s.last() - 48)
    }
}

/// What parsing a piece as an `i32` yields: an optional ASCII sign, then at
/// least one digit, with the value in range; anything else is rejected.
pub open spec fn spec_parse_i32(s: Seq<u8>) -> Option<i32> {
    let neg = s.len() > 0 && s[0] == 45;
    let body = if s.len() > 0 && (s[0] == 45 || s[0] == 43) {
        s.drop_first()
    } else {
        s
    };
    if body.len() == 0 || !all_digits(body) {
        None
    } else if neg {
        if digits_val(body) <= 0x8000_0000 {
            Some((-digits_val(body)) as i32)
        } else {
            None
        }
    } else {
        if digits_val(body) <= 0x7fff_ffff {
            Some(digits_val(body) as i32)
        } else {
            None
        }
    }
}

/// The ASCII digit string of a non-negative number, most significant digit
/// first, no leading zeros (a lone zero for 0).
pub open spec fn spec_digits(n: int) -> Seq<u8>
    decreases n,
{
    if n < 10 {
        seq![(n + 48) as u8]
    } else {
        spec_digits(n / 10).push((n % 10 + 48) as u8)
    }
}

/// The rendering of a signed number: a minus sign for negatives, then the
/// digits of its magnitude.
pub open spec fn spec_render_i32(x: int) -> Seq<u8> {
    if x < 0 {
        seq![45u8] + spec_digits(-x)
    } else {
        spec_digits(x)
    }
}

/// The digit string of `n` really encodes `n`.
proof fn lemma_digits_val_of_digits(n: int)
    requires
        n >= 0,
    ensures
        all_digits(spec_digits(n)),
        digits_val(spec_digits(n)) == n,
        spec_digits(n).len() >= 1,
        is_digit(spec_digits(n)[0]),
    decreases n,
{
    if n < 10 {
        let s = spec_digits(n);
        assert(s =~= seq![(n + 48) as u8]);
        assert(s.drop_last() =~= Seq::<u8>::empty());
        assert(s.last() == (n + 48) as u8);
        assert(digits_val(Seq::<u8>::empty()) == 0);
        assert(digits_val(s) == digits_val(s.drop_last()) * 10 + (s.last() - 48));
        assert(s.last() == n + 48);
        assert(digits_val(s) == n);
    } else {
        lemma_digits_val_of_digits(n / 10);
        let p = spec_digits(n / 10);
        let s = spec_digits(n);
        assert(s == p.push((n % 10 + 48) as u8));
        assert(s.drop_last() =~= p);
        assert(s.last() == (n % 10 + 48) as u8);
        assert(digits_val(s) == digits_val(p) * 10 + (n % 10));
        assert(digits_val(s) == n) by {
            assert(n == (n / 10) * 10 + n % 10);
        }
        assert forall|i: int| 0 <= i < s.len() implies is_digit(#[trigger] s[i]) by {
            if i < p.len() {
                assert(s[i] == p[i]);
            }
        }
    }
}

/// Parsing the rendering of any 32-bit value gives that value back.
pub proof fn lemma_parse_render_i32(x: int)
    requires
        -0x8000_0000 <= x <= 0x7fff_ffff,
    ensures
        spec_parse_i32(spec_render_i32(x)) == Some(x as i32),
{
    if x < 0 {
        lemma_digits_val_of_digits(-x);
        let d = spec_digits(-x);
        let s = seq![45u8] + d;
        assert(spec_render_i32(x) == s);
        assert(s[0] == 45);
        assert(s.drop_first() =~= d);
        assert(digits_val(d) == -x <= 0x8000_0000);
        assert((-digits_val(d)) as i32 == x as i32);
    } else {
        lemma_digits_val_of_digits(x);
        let d = spec_digits(x);
        assert(spec_render_i32(x) == d);
        assert(is_digit(d[0]));
        assert(!(d[0] == 45 || d[0] == 43));
        assert(digits_val(d) == x <= 0x7fff_ffff);
    }
}

/// Renders the digits of a non-negative number.
fn render_u32(n: u32) -> (r: Vec<u8>)
    ensures
        r@ == spec_digits(n as int),
    decreases n,
{
    if n < 10 {
        let mut v: Vec<u8> = Vec::new();
        v.push((n as u8) + 48);
        proof {
            assert(v@ =~= seq![(n + 48) as u8]);
        }
        v
    } else {
        let mut v = render_u32(n / 10);
        v.push(((n % 10) as u8) + 48);
        proof {
            assert(v@ =~= spec_digits((n / 10) as int).push((n % 10 + 48) as u8));
        }
        v
    }
}

/// Renders one signed 32-bit value in decimal.
pub fn render_i32(x: i32) -> (r: Vec<u8>)
    ensures
        r@ == spec_render_i32(x as int),
{
    if x < 0 {
        let mag: u32 = (-(x as i64)) as u32;
        let mut v: Vec<u8> = Vec::new();
        v.push(45);
        let d = render_u32(mag);
        append_bytes(&mut v, &d);
        proof {
            assert(v@ =~= seq![45u8] + spec_digits(-(x as int)));
        }
        v
    } else {
        render_u32(x as u32)
    }
}

/// Appends all bytes of `src` to `dst`.
fn append_bytes(dst: &mut Vec<u8>, src: &Vec<u8>)
    ensures
        final(dst)@ == old(dst)@ + src@,
{
    let ghost base: Seq<u8> = dst@;
    let mut i: usize = 0;
    while i < src.len()
        invariant
            i <= src@.len(),
            dst@ == base + src@.subrange(0, i as int),
        decreases src@.len() - i,
    {
        dst.push(src[i]);
        proof {
            assert(base + src@.subrange(0, i + 1) =~= (base + src@.subrange(0, i as int)).push(
                src@[i as int],
            ));
        }
        i = i + 1;
    }
    proof {
        assert(src@.subrange(0, src@.len() as int) =~= src@);
    }
}

/// Parses the bytes `s[from..to]` as a signed 32-bit decimal integer,
/// exactly as the piece parser of the codec specifies.
#[verifier::loop_isolation(false)]
fn parse_i32_range(s: &Vec<u8>, from: usize, to: usize) -> (r: Option<i32>)
    requires
        from <= to <= s@.len(),
    ensures
        r == spec_parse_i32(s@.subrange(from as int, to as int)),
{
    let ghost piece: Seq<u8> = s@.subrange(from as int, to as int);
    let mut k: usize = from;
    let mut neg: bool = false;
    if k < to && (s[k] == 45 || s[k] == 43) {
        neg = s[k] == 45;
        k = k + 1;
    }
    let ghost body: Seq<u8> = s@.subrange(k as int, to as int);
    proof {
        if k > from {
            assert(body =~= piece.drop_first());
        }
    }
    if k == to {
        return None;
    }

    let mut acc: u64 = 0;
    let mut m: usize = k;
    while m < to
        invariant
            k <= m <= to <= s@.len(),
            body == s@.subrange(k as int, to as int),
            all_digits(s@.subrange(k as int, m as int)),
            (digits_val(s@.subrange(k as int, m as int)) <= 3_000_000_000 && acc
                == digits_val(s@.subrange(k as int, m as int))) || (digits_val(
                s@.subrange(k as int, m as int),
            ) > 3_000_000_000 && acc > 3_000_000_000),
        decreases to - m,
    {
        let b = s[m];
        let ghost pref: Seq<u8> = s@.subrange(k as int, m as int);
        proof {
            assert(s@.subrange(k as int, m + 1) =~= pref.push(s@[m as int]));
            assert(s@.subrange(k as int, m + 1).drop_last() =~= pref);
        }
        if b < 48 || b > 57 {
            proof {
                assert(body[m - k] == s@[m as int]);
                assert(!is_digit(body[m - k]));
                assert(!all_digits(body));
                if k > from {
                    assert(piece[0] == s@[from as int]);
                } else {
                    assert(body == piece);
                    if piece.len() > 0 {
                        assert(piece[0] == s@[from as int]);
                    }
                }
            }
            return None;
        }
        if acc <= 3_000_000_000 {
            acc = acc * 10 + ((b - 48) as u64);
        }
        m = m + 1;
    }
    proof {
        assert(s@.subrange(k as int, to as int) == body);
    }

    if neg {
        if acc <= 2147483648 {
            Some((-(acc as i64)) as i32)
        } else {
            None
        }
    } else {
        if acc <= 2147483647 {
            Some(acc as i32)
        } else {
            None
        }
    }
}

/// No two-byte `", "` separator occurs anywhere in `s`.
pub open spec fn no_sep(s: Seq<u8>) -> bool {
    forall|i: int| 0 <= i < s.len() - 1 ==> !((#[trigger] s[i]) == 44 && s[i + 1] == 32)
}

/// The pieces of `s` split on the literal `", "`, leftmost separator first,
/// non-overlapping: exactly what splitting the text on that separator
/// yields, including empty pieces.
pub open spec fn split_pieces(s: Seq<u8>) -> Seq<Seq<u8>>
    decreases s.len(),
{
    if s.len() < 2 {
        seq![s]
    } else if s[0] == 44 && s[1] == 32 {
        seq![Seq::<u8>::empty()] + split_pieces(s.skip(2))
    } else {
        let r = split_pieces(s.drop_first());
        seq![seq![s[0]] + r[0]] + r.skip(1)
    }
}

/// Splitting yields at least one piece.
proof fn lemma_split_len(s: Seq<u8>)
    ensures
        split_pieces(s).len() >= 1,
    decreases s.len(),
{
    if s.len() >= 2 {
        if s[0] == 44 && s[1] == 32 {
            lemma_split_len(s.skip(2));
        } else {
            lemma_split_len(s.drop_first());
        }
    }
}

/// A separator-free text is a single piece.
proof fn lemma_split_nosep(p: Seq<u8>)
    requires
        no_sep(p),
    ensures
        split_pieces(p) == seq![p],
    decreases p.len(),
{
    if p.len() < 2 {
        assert(split_pieces(p) =~= seq![p]);
    } else {
        assert(!(p[0] == 44 && p[1] == 32));
        assert(no_sep(p.drop_first())) by {
            assert forall|i: int|
                0 <= i < p.drop_first().len() - 1 implies !((#[trigger] p.drop_first()[i]) == 44
                && p.drop_first()[i + 1] == 32) by {
                assert(p.drop_first()[i] == p[i + 1]);
                assert(p.drop_first()[i + 1] == p[i + 2]);
            }
        }
        lemma_split_nosep(p.drop_first());
        let r = split_pieces(p.drop_first());
        assert(seq![p[0]] + r[0] =~= p);
        assert(r.skip(1) =~= Seq::<Seq<u8>>::empty());
        assert(split_pieces(p) =~= seq![p]);
    }
}

/// Splitting a separator-free piece, the separator, and a remainder peels
/// off exactly that piece.
proof fn lemma_split_prefix(p: Seq<u8>, rest: Seq<u8>)
    requires
        no_sep(p),
    ensures
        split_pieces(p + seq![44u8, 32u8] + rest) == seq![p] + split_pieces(rest),
    decreases p.len(),
{
    let s = p + seq![44u8, 32u8] + rest;
    if p.len() == 0 {
        assert(s[0] == 44 && s[1] == 32);
        assert(s.skip(2) =~= rest);
        assert(p =~= Seq::<u8>::empty());
        assert(split_pieces(s) =~~= seq![p] + split_pieces(rest));
    } else {
        assert(s[0] == p[0]);
        if p.len() == 1 {
            assert(s[1] == 44);
            assert(!(s[0] == 44 && s[1] == 32));
        } else {
            assert(s[1] == p[1]);
            assert(!(p[0] == 44 && p[1] == 32));
        }
        assert(no_sep(p.drop_first())) by {
            assert forall|i: int|
                0 <= i < p.drop_first().len() - 1 implies !((#[trigger] p.drop_first()[i]) == 44
                && p.drop_first()[i + 1] == 32) by {
                assert(p.drop_first()[i] == p[i + 1]);
                assert(p.drop_first()[i + 1] == p[i + 2]);
            }
        }
        assert(s.drop_first() =~= p.drop_first() + seq![44u8, 32u8] + rest);
        lemma_split_prefix(p.drop_first(), rest);
        let r = split_pieces(s.drop_first());
        lemma_split_len(rest);
        assert(r[0] == p.drop_first());
        assert(seq![s[0]] + r[0] =~= p);
        assert(r.skip(1) =~= split_pieces(rest));
        assert(split_pieces(s) == seq![seq![s[0]] + r[0]] + r.skip(1));
        assert(split_pieces(s) =~~= seq![p] + split_pieces(rest));
    }
}

/// Parsing a list of pieces: every piece must parse, in order.
pub open spec fn parse_pieces(ps: Seq<Seq<u8>>) -> Option<Seq<i32>>
    decreases ps.len(),
{
    if ps.len() == 0 {
        Some(Seq::<i32>::empty())
    } else {
        match spec_parse_i32(ps[0]) {
            Option::None => None,
            Option::Some(x) => match parse_pieces(ps.drop_first()) {
                Option::None => None,
                Option::Some(t) => Some(seq![x] + t),
            },
        }
    }
}

/// What reading a vector file yields: strip exactly the first and last
/// byte, split the remainder on `", "`, and parse every piece; any failure
/// rejects the whole input.
pub open spec fn spec_parse_vec(s: Seq<u8>) -> Option<Seq<i32>> {
    if s.len() < 2 {
        None
    } else {
        parse_pieces(split_pieces(s.subrange(1, s.len() - 1)))
    }
}

/// The renderings of the values joined by `", "`.
pub open spec fn spec_join(v: Seq<i32>) -> Seq<u8>
    decreases v.len(),
{
    if v.len() == 0 {
        Seq::<u8>::empty()
    } else if v.len() == 1 {
        spec_render_i32(v[0] as int)
    } else {
        spec_join(v.drop_last()) + seq![44u8, 32u8] + spec_render_i32(v.last() as int)
    }
}

/// The full rendering of a vector: the joined values between one opening
/// and one closing square bracket.
pub open spec fn spec_render_vec(v: Seq<i32>) -> Seq<u8> {
    seq![91u8] + spec_join(v) + seq![93u8]
}

/// A rendered value never contains a comma byte, so no `", "` separator
/// occurs inside it.
proof fn lemma_render_no_sep(x: int)
    requires
        -0x8000_0000 <= x <= 0x7fff_ffff,
    ensures
        no_sep(spec_render_i32(x)),
        spec_render_i32(x).len() >= 1,
{
    let s = spec_render_i32(x);
    if x < 0 {
        lemma_digits_val_of_digits(-x);
        assert forall|i: int| 0 <= i < s.len() implies s[i] != 44 by {
            if i > 0 {
                assert(s[i] == spec_digits(-x)[i - 1]);
                assert(is_digit(spec_digits(-x)[i - 1]));
            }
        }
    } else {
        lemma_digits_val_of_digits(x);
        assert forall|i: int| 0 <= i < s.len() implies s[i] != 44 by {
            assert(is_digit(s[i]));
        }
    }
}

/// The join of two or more values can also be peeled from the front.
proof fn lemma_join_front(v: Seq<i32>)
    requires
        v.len() >= 2,
    ensures
        spec_join(v) == spec_render_i32(v[0] as int) + seq![44u8, 32u8] + spec_join(
            v.drop_first(),
        ),
    decreases v.len(),
{
    if v.len() == 2 {
        assert(v.drop_last().len() == 1 && v.drop_last()[0] == v[0]);
        assert(v.drop_first().len() == 1 && v.drop_first()[0] == v[1]);
        assert(v.last() == v[1]);
        assert(spec_join(v.drop_last()) == spec_render_i32(v[0] as int));
        assert(spec_join(v.drop_first()) == spec_render_i32(v[1] as int));
    } else {
        let dl = v.drop_last();
        let df = v.drop_first();
        lemma_join_front(dl);
        assert(dl[0] == v[0]);
        assert(dl.drop_first() =~= df.drop_last());
        assert(df.last() == v.last());
        assert(spec_join(df) == spec_join(df.drop_last()) + seq![44u8, 32u8] + spec_render_i32(
            v.last() as int,
        ));
        assert(spec_join(v) =~= spec_render_i32(v[0] as int) + seq![44u8, 32u8] + spec_join(df));
    }
}

/// Splitting and parsing the join of any non-empty value list recovers
/// exactly those values.
proof fn lemma_parse_join(v: Seq<i32>)
    requires
        v.len() >= 1,
    ensures
        parse_pieces(split_pieces(spec_join(v))) == Some(v),
    decreases v.len(),
{
    if v.len() == 1 {
        let p = spec_render_i32(v[0] as int);
        assert(spec_join(v) == p);
        lemma_render_no_sep(v[0] as int);
        lemma_split_nosep(p);
        lemma_parse_render_i32(v[0] as int);
        assert(seq![p][0] == p);
        assert(seq![p].drop_first() =~= Seq::<Seq<u8>>::empty());
        assert(parse_pieces(Seq::<Seq<u8>>::empty()) == Some(Seq::<i32>::empty()));
        assert(parse_pieces(seq![p]) == Some(seq![v[0]] + Seq::<i32>::empty()));
        assert(seq![v[0]] + Seq::<i32>::empty() =~= v);
    } else {
        let p = spec_render_i32(v[0] as int);
        let rest = spec_join(v.drop_first());
        lemma_join_front(v);
        lemma_render_no_sep(v[0] as int);
        lemma_split_prefix(p, rest);
        lemma_parse_join(v.drop_first());
        lemma_parse_render_i32(v[0] as int);
        let ps = seq![p] + split_pieces(rest);
        assert(ps[0] == p);
        assert(ps.drop_first() =~= split_pieces(rest));
        assert(parse_pieces(ps) == Some(seq![v[0]] + v.drop_first()));
        assert(seq![v[0]] + v.drop_first() =~= v);
    }
}

/// Writing a non-empty vector and reading the bytes back yields the same
/// vector. (The empty vector renders as a bare bracket pair, whose single
/// empty piece the reader rejects, so it is excluded here.)
pub proof fn lemma_render_parse_round_trip(v: Seq<i32>)
    requires
        v.len() >= 1,
    ensures
        spec_parse_vec(spec_render_vec(v)) == Some(v),
{
    let s = spec_render_vec(v);
    assert(s.len() == spec_join(v).len() + 2);
    assert(s.subrange(1, s.len() - 1) =~= spec_join(v));
    lemma_parse_join(v);
}

/// An optional vector of parsed values, seen abstractly.
pub open spec fn parsed_view(r: Option<Vec<i32>>) -> Option<Seq<i32>> {
    match r {
        Option::None => None,
        Option::Some(v) => Some(v@),
    }
}

/// Renders a vector into the exact byte form `[v0, v1, ...]`.
#[verifier::loop_isolation(false)]
pub fn render_vec(v: &Vec<i32>) -> (r: Vec<u8>)
    ensures
        r@ == spec_render_vec(v@),
{
    let mut out: Vec<u8> = Vec::new();
    out.push(91);
    let mut i: usize = 0;
    while i < v.len()
        invariant
            i <= v@.len(),
            out@ == seq![91u8] + spec_join(v@.subrange(0, i as int)),
        decreases v@.len() - i,
    {
        if i > 0 {
            out.push(44);
            out.push(32);
        }
        let d = render_i32(v[i]);
        append_bytes(&mut out, &d);
        proof {
            let pref = v@.subrange(0, i + 1);
            assert(pref.drop_last() =~= v@.subrange(0, i as int));
            assert(pref.last() == v@[i as int]);
            if i == 0 {
                assert(out@ =~= seq![91u8] + spec_join(pref));
            } else {
                assert(out@ =~= seq![91u8] + (spec_join(pref.drop_last()) + seq![44u8, 32u8]
                    + spec_render_i32(pref.last() as int)));
            }
        }
        i = i + 1;
    }
    out.push(93);
    proof {
        assert(v@.subrange(0, v@.len() as int) =~= v@);
        assert(out@ =~= seq![91u8] + spec_join(v@) + seq![93u8]);
    }
    out
}

/// Reads a vector back from its byte form: positional bracket strip, split
/// on `", "`, and a 32-bit parse of every piece. Returns nothing when any
/// step fails, exactly as specified by `spec_parse_vec`.
#[verifier::loop_isolation(false)]
pub fn parse_vec(s: &Vec<u8>) -> (r: Option<Vec<i32>>)
    ensures
        parsed_view(r) == spec_parse_vec(s@),
{
    if s.len() < 2 {
        return None;
    }
    let bound: usize = s.len() - 1;
    let ghost inner: Seq<u8> = s@.subrange(1, s@.len() - 1);
    let mut result: Vec<i32> = Vec::new();
    let mut start: usize = 1;
    proof {
        assert(s@.subrange(1, bound as int) == inner);
        if parse_pieces(split_pieces(inner)) is Some {
            assert(Seq::<i32>::empty() + parse_pieces(split_pieces(inner)).unwrap()
                =~= parse_pieces(split_pieces(inner)).unwrap());
        }
    }
    loop
        invariant
            1 <= start <= bound < s@.len(),
            spec_parse_vec(s@) == (match parse_pieces(
                split_pieces(s@.subrange(start as int, bound as int)),
            ) {
                Option::None => Option::<Seq<i32>>::None,
                Option::Some(t) => Some(result@ + t),
            }),
        decreases bound - start,
    {
        let ghost rem: Seq<u8> = s@.subrange(start as int, bound as int);
        let mut j: usize = start;
        while j + 1 < bound && !(s[j] == 44 && s[j + 1] == 32)
            invariant
                start <= j <= bound,
                j < s@.len(),
                forall|i: int| start <= i < j ==> !((#[trigger] s@[i]) == 44 && s@[i + 1] == 32),
            decreases bound - j,
        {
            j = j + 1;
        }
        if j + 1 < bound {
            // A separator stands at `j`.
            let ghost piece: Seq<u8> = s@.subrange(start as int, j as int);
            let ghost rest: Seq<u8> = s@.subrange(j + 2, bound as int);
            proof {
                assert(s@[j as int] == 44 && s@[j + 1] == 32);
                assert(rem =~= piece + seq![44u8, 32u8] + rest);
                assert(no_sep(piece)) by {
                    assert forall|i: int|
                        0 <= i < piece.len() - 1 implies !((#[trigger] piece[i]) == 44 && piece[i
                        + 1] == 32) by {
                        assert(piece[i] == s@[start + i]);
                        assert(piece[i + 1] == s@[start + i + 1]);
                    }
                }
                lemma_split_prefix(piece, rest);
                assert((seq![piece] + split_pieces(rest)).drop_first() =~= split_pieces(rest));
                assert((seq![piece] + split_pieces(rest))[0] == piece);
            }
            match parse_i32_range(s, start, j) {
                None => {
                    return None;
                },
                Some(x) => {
                    result.push(x);
                    proof {
                        if parse_pieces(split_pieces(rest)) is Some {
                            let t = parse_pieces(split_pieces(rest)).unwrap();
                            assert(result@ + t =~= (result@.drop_last()) + (seq![x] + t));
                        }
                    }
                },
            }
            start = j + 2;
        } else {
            // No further separator: the remainder is the last piece.
            proof {
                assert(no_sep(rem)) by {
                    assert forall|i: int|
                        0 <= i < rem.len() - 1 implies !((#[trigger] rem[i]) == 44 && rem[i + 1]
                        == 32) by {
                        assert(rem[i] == s@[start + i]);
                        assert(rem[i + 1] == s@[start + i + 1]);
                    }
                }
                lemma_split_nosep(rem);
                assert(seq![rem].drop_first() =~= Seq::<Seq<u8>>::empty());
                assert(seq![rem][0] == rem);
            }
            match parse_i32_range(s, start, bound) {
                None => {
                    return None;
                },
                Some(x) => {
                    result.push(x);
                    proof {
                        assert(parse_pieces(Seq::<Seq<u8>>::empty()) == Some(Seq::<i32>::empty()));
                        assert(parse_pieces(seq![rem].drop_first()) == Some(Seq::<i32>::empty()));
                        assert(parse_pieces(seq![rem]) == Some(seq![x] + Seq::<i32>::empty()));
                        assert(result@ =~= result@.drop_last() + (seq![x] + Seq::<i32>::empty()));
                    }
                    return Some(result);
                },
            }
        }
    }
}

} // verus!
