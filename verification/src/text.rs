//! Small verified text utilities shared by the puzzle parsers: splitting a
//! string on a separator, splitting into lines, and reading decimal
//! numbers.

use vstd::prelude::*;

verus! {

/// Splitting a character sequence on a separator, keeping empty segments:
/// the empty input yields one empty segment, and every separator ends the
/// segment before it.
pub open spec fn spec_split(s: Seq<char>, sep: char) -> Seq<Seq<char>>
    decreases s.len(),
{
    if s.len() == 0 {
        seq![Seq::<char>::empty()]
    } else if s[0] == sep {
        seq![Seq::<char>::empty()] + spec_split(s.drop_first(), sep)
    } else {
        let rest = spec_split(s.drop_first(), sep);
        seq![seq![s[0]] + rest[0]] + rest.drop_first()
    }
}

pub proof fn lemma_split_len(s: Seq<char>, sep: char)
    ensures
        spec_split(s, sep).len() >= 1,
    decreases s.len(),
{
    if s.len() > 0 {
        lemma_split_len(s.drop_first(), sep);
    }
}

/// A line with a trailing carriage return has it removed.
pub open spec fn strip_cr(seg: Seq<char>) -> Seq<char> {
    if seg.len() > 0 && seg.last() == '\r' {
        seg.drop_last()
    } else {
        seg
    }
}

/// The lines of a text: the newline-separated segments, without a final
/// empty segment after a trailing newline, each with a trailing carriage
/// return removed.
pub open spec fn spec_lines(s: Seq<char>) -> Seq<Seq<char>> {
    let parts = spec_split(s, '\n');
    let trimmed = if parts.last().len() == 0 {
        parts.drop_last()
    } else {
        parts
    };
    trimmed.map_values(|seg: Seq<char>| strip_cr(seg))
}

pub open spec fn is_digit(c: char) -> bool {
    '0' as u32 <= c as u32 <= '9' as u32
}

pub open spec fn all_digits(s: Seq<char>) -> bool {
    forall|i: int| 0 <= i < s.len() ==> is_digit(#[trigger] s[i])
}

/// The value of a sequence of decimal digits, most significant first.
pub open spec fn digits_val(s: Seq<char>) -> int
    decreases s.len(),
{
    if s.len() == 0 {
        0
    } else {
        digits_val(s.drop_last()) * 10 + (s.last() as u32 - '0' as u32)
    }
}

/// The value of an optionally `-`-signed sequence of decimal digits.
pub open spec fn signed_val(s: Seq<char>) -> int {
    if s.len() > 0 && s[0] == '-' {
        -digits_val(s.drop_first())
    } else {
        digits_val(s)
    }
}

/// A non-empty run of digits, optionally preceded by a minus sign.
pub open spec fn is_signed_digits(s: Seq<char>) -> bool {
    if s.len() > 0 && s[0] == '-' {
        s.drop_first().len() >= 1 && all_digits(s.drop_first())
    } else {
        s.len() >= 1 && all_digits(s)
    }
}

proof fn lemma_digits_nonneg(s: Seq<char>)
    requires
        all_digits(s),
    ensures
        digits_val(s) >= 0,
    decreases s.len(),
{
    if s.len() > 0 {
        assert(all_digits(s.drop_last()));
        lemma_digits_nonneg(s.drop_last());
    }
}

/// Extending a digit prefix never shrinks its value.
proof fn lemma_digits_prefix(s: Seq<char>, i: int)
    requires
        all_digits(s),
        0 <= i <= s.len(),
    ensures
        digits_val(s.subrange(0, i)) <= digits_val(s),
    decreases s.len() - i,
{
    if i < s.len() {
        lemma_digits_prefix(s, i + 1);
        let p = s.subrange(0, i);
        let q = s.subrange(0, i + 1);
        assert(q.drop_last() =~= p);
        assert(all_digits(p));
        lemma_digits_nonneg(p);
        assert(digits_val(q) == digits_val(p) * 10 + (q.last() as u32 - '0' as u32));
    } else {
        assert(s.subrange(0, i) =~= s);
    }
}

/// Split a string on a separator character, keeping empty segments, as
/// [`spec_split`] describes.
pub fn split_char(s: &str, sep: char) -> (r: Vec<String>)
    ensures
        r.deep_view() == spec_split(s@, sep),
{
    let len = s.unicode_len();
    let mut parts: Vec<String> = Vec::new();
    let mut seg_start: usize = 0;
    let mut i: usize = 0;
    proof {
        assert(s@.skip(0) =~= s@);
        lemma_split_len(s@, sep);
        assert(parts.deep_view() =~= Seq::<Seq<char>>::empty());
        assert(s@.subrange(0, 0) =~= Seq::<char>::empty());
    }
    while i < len
        invariant
            len == s@.len(),
            seg_start <= i <= len,
            ({
                let tail = spec_split(s@.skip(i as int), sep);
                parts.deep_view() + seq![s@.subrange(seg_start as int, i as int) + tail[0]]
                    + tail.drop_first() =~~= spec_split(s@, sep)
            }),
        decreases len - i,
    {
        proof {
            lemma_split_len(s@.skip(i as int + 1), sep);
            lemma_split_len(s@.skip(i as int), sep);
            assert(s@.skip(i as int).drop_first() =~= s@.skip(i as int + 1));
            assert(s@.skip(i as int)[0] == s@[i as int]);
        }
        let c = s.get_char(i);
        if c == sep {
            let seg = s.substring_char(seg_start, i).to_owned();
            let ghost old_parts = parts.deep_view();
            parts.push(seg);
            proof {
                assert(parts.deep_view() =~= old_parts.push(
                    s@.subrange(seg_start as int, i as int),
                ));
            }
            seg_start = i + 1;
            proof {
                let tail = spec_split(s@.skip(i as int + 1), sep);
                assert(s@.subrange(seg_start as int, i as int + 1) =~= Seq::<char>::empty());
            }
        } else {
            proof {
                let tail = spec_split(s@.skip(i as int + 1), sep);
                assert(s@.subrange(seg_start as int, i as int + 1) =~= s@.subrange(
                    seg_start as int,
                    i as int,
                ).push(s@[i as int]));
                assert(s@.subrange(seg_start as int, i as int) + (seq![s@[i as int]] + tail[0])
                    =~= s@.subrange(seg_start as int, i as int + 1) + tail[0]);
            }
        }
        i = i + 1;
    }
    let seg = s.substring_char(seg_start, len).to_owned();
    let ghost old_parts = parts.deep_view();
    parts.push(seg);
    proof {
        assert(s@.skip(len as int) =~= Seq::<char>::empty());
        let tail = spec_split(s@.skip(len as int), sep);
        assert(tail =~= seq![Seq::<char>::empty()]);
        assert(parts.deep_view() =~= old_parts.push(s@.subrange(seg_start as int, len as int)));
        assert(parts.deep_view() =~= spec_split(s@, sep));
    }
    parts
}

/// Split a string into lines, as [`spec_lines`] describes.
pub fn lines_of(s: &str) -> (r: Vec<String>)
    ensures
        r.deep_view() == spec_lines(s@),
{
    let mut parts = split_char(s, '\n');
    proof {
        lemma_split_len(s@, '\n');
    }
    let ghost parts0 = parts.deep_view();
    proof {
        assert(parts@[parts@.len() - 1]@ == parts0.last());
    }
    let last_len = parts[parts.len() - 1].as_str().unicode_len();
    if last_len == 0 {
        parts.pop();
        proof {
            assert(parts.deep_view() =~= parts0.drop_last());
        }
    }
    let ghost trimmed = parts.deep_view();
    let mut out: Vec<String> = Vec::new();
    let mut i: usize = 0;
    while i < parts.len()
        invariant
            trimmed == parts.deep_view(),
            trimmed.len() == parts@.len(),
            i <= parts@.len(),
            out.deep_view() =~= trimmed.subrange(0, i as int).map_values(
                |seg: Seq<char>| strip_cr(seg),
            ),
        decreases parts@.len() - i,
    {
        proof {
            assert(parts@[i as int]@ == trimmed[i as int]);
        }
        let line = &parts[i];
        let line_len = line.as_str().unicode_len();
        let ghost old_out = out.deep_view();
        if line_len > 0 && line.as_str().get_char(line_len - 1) == '\r' {
            let stripped = line.as_str().substring_char(0, line_len - 1).to_owned();
            out.push(stripped);
        } else {
            let copy = line.as_str().to_owned();
            out.push(copy);
        }
        proof {
            assert(out.deep_view() =~= old_out.push(strip_cr(trimmed[i as int])));
            assert(trimmed.subrange(0, i as int + 1) =~= trimmed.subrange(0, i as int).push(
                trimmed[i as int],
            ));
            assert(trimmed.subrange(0, i as int + 1).map_values(|seg: Seq<char>| strip_cr(seg))
                =~= trimmed.subrange(0, i as int).map_values(|seg: Seq<char>| strip_cr(seg)).push(
                strip_cr(trimmed[i as int]),
            ));
        }
        i = i + 1;
    }
    proof {
        assert(trimmed.subrange(0, trimmed.len() as int) =~= trimmed);
        assert(out.deep_view() =~= spec_lines(s@));
    }
    out
}

/// The characters of a string as a vector.
pub fn chars_of(s: &str) -> (r: Vec<char>)
    ensures
        r@ == s@,
{
    let len = s.unicode_len();
    let mut r: Vec<char> = Vec::new();
    let mut i: usize = 0;
    while i < len
        invariant
            len == s@.len(),
            i <= len,
            r@ =~= s@.subrange(0, i as int),
        decreases len - i,
    {
        r.push(s.get_char(i));
        proof {
            assert(r@ =~= s@.subrange(0, i as int + 1));
        }
        i = i + 1;
    }
    proof {
        assert(r@ =~= s@);
    }
    r
}

/// A fresh vector with the same elements.
pub fn copy_vec<T: Copy>(v: &Vec<T>) -> (r: Vec<T>)
    ensures
        r@ == v@,
{
    let mut r: Vec<T> = Vec::new();
    let mut i: usize = 0;
    while i < v.len()
        invariant
            i <= v.len(),
            r@ =~= v@.subrange(0, i as int),
        decreases v.len() - i,
    {
        r.push(v[i]);
        proof {
            assert(r@ =~= v@.subrange(0, i as int + 1));
        }
        i = i + 1;
    }
    proof {
        assert(r@ =~= v@);
    }
    r
}

/// Are the two strings equal?
pub fn str_eq(a: &str, b: &str) -> (r: bool)
    ensures
        r == (a@ == b@),
{
    let alen = a.unicode_len();
    let blen = b.unicode_len();
    if alen != blen {
        return false;
    }
    let mut i: usize = 0;
    while i < alen
        invariant
            alen == a@.len(),
            alen == b@.len(),
            i <= alen,
            forall|k: int| 0 <= k < i ==> a@[k] == b@[k],
        decreases alen - i,
    {
        if a.get_char(i) != b.get_char(i) {
            return false;
        }
        i = i + 1;
    }
    proof {
        assert(a@ =~= b@);
    }
    true
}

/// Does the vector hold the character?
pub fn contains_char(v: &Vec<char>, c: char) -> (r: bool)
    ensures
        r == v@.contains(c),
{
    let mut i: usize = 0;
    while i < v.len()
        invariant
            i <= v.len(),
            forall|k: int| 0 <= k < i ==> v@[k] != c,
        decreases v.len() - i,
    {
        if v[i] == c {
            return true;
        }
        i = i + 1;
    }
    false
}

/// Does the string hold the character?
pub fn str_contains_char(s: &str, c: char) -> (r: bool)
    ensures
        r == s@.contains(c),
{
    let len = s.unicode_len();
    let mut i: usize = 0;
    while i < len
        invariant
            len == s@.len(),
            i <= len,
            forall|k: int| 0 <= k < i ==> s@[k] != c,
        decreases len - i,
    {
        if s.get_char(i) == c {
            return true;
        }
        i = i + 1;
    }
    false
}

/// A whitespace token parses as an unsigned number exactly when it is a
/// non-empty run of digits whose value fits.
pub open spec fn token_is_num(t: Seq<char>) -> bool {
    t.len() >= 1 && all_digits(t) && digits_val(t) <= usize::MAX
}

/// Read an unsigned decimal number.
pub fn parse_usize(s: &str) -> (r: usize)
    requires
        s@.len() >= 1,
        all_digits(s@),
        digits_val(s@) <= usize::MAX,
    ensures
        r == digits_val(s@),
{
    let len = s.unicode_len();
    let mut acc: usize = 0;
    let mut i: usize = 0;
    while i < len
        invariant
            len == s@.len(),
            i <= len,
            all_digits(s@),
            digits_val(s@) <= usize::MAX,
            acc == digits_val(s@.subrange(0, i as int)),
        decreases len - i,
    {
        let c = s.get_char(i);
        proof {
            lemma_digits_prefix(s@, i as int + 1);
            assert(s@.subrange(0, i as int + 1).drop_last() =~= s@.subrange(0, i as int));
            assert(s@.subrange(0, i as int + 1).last() == s@[i as int]);
        }
        let d = (c as u32 - 48) as usize;
        acc = acc * 10 + d;
        i = i + 1;
    }
    proof {
        assert(s@.subrange(0, len as int) =~= s@);
    }
    acc
}

/// Read an optionally signed decimal number into an `i64`.
pub fn parse_i64(s: &str) -> (r: i64)
    requires
        is_signed_digits(s@),
        i64::MIN <= signed_val(s@) <= i64::MAX,
    ensures
        r == signed_val(s@),
{
    let len = s.unicode_len();
    let negative = s.get_char(0) == '-';
    let start: usize = if negative {
        1
    } else {
        0
    };
    let ghost digits = if negative {
        s@.drop_first()
    } else {
        s@
    };
    proof {
        lemma_digits_nonneg(digits);
    }
    let mut acc: i64 = 0;
    let mut i: usize = start;
    while i < len
        invariant
            len == s@.len(),
            start <= i <= len,
            start == if negative {
                1int
            } else {
                0int
            },
            negative == (s@[0] == '-'),
            digits == if negative {
                s@.drop_first()
            } else {
                s@
            },
            is_signed_digits(s@),
            i64::MIN <= signed_val(s@) <= i64::MAX,
            acc == digits_val(s@.subrange(start as int, i as int)),
            0 <= acc,
        decreases len - i,
    {
        let c = s.get_char(i);
        proof {
            assert(digits =~= s@.subrange(start as int, len as int));
            assert(s@.subrange(start as int, i as int + 1)[i - start] == s@[i as int]);
            assert(s@.subrange(start as int, i as int + 1) =~= digits.subrange(
                0,
                i as int + 1 - start,
            ));
            assert(digits[i - start] == s@[i as int]);
            assert(is_digit(s@[i as int]));
            lemma_digits_prefix(digits, i as int + 1 - start);
            if negative {
                assert(digits_val(digits) == -signed_val(s@));
                assert(digits_val(digits) <= 0x8000_0000_0000_0000);
            } else {
                assert(digits_val(digits) == signed_val(s@));
            }
            assert(s@.subrange(start as int, i as int + 1).drop_last() =~= s@.subrange(
                start as int,
                i as int,
            ));
        }
        let d = (c as u32 - 48) as i64;
        proof {
            assert(acc * 10 + d == digits_val(s@.subrange(start as int, i as int + 1)));
            assert(digits_val(s@.subrange(start as int, i as int + 1)) <= digits_val(digits));
        }
        if negative && acc == 0x0CCC_CCCC_CCCC_CCCC && d == 8 {
            // `acc * 10 + 8` is one past `i64::MAX`: this is exactly
            // `i64::MIN`, which ten times anything plus a digit reaches
            // only here.
            proof {
                assert(digits_val(s@.subrange(start as int, i as int + 1))
                    == 0x8000_0000_0000_0000);
                assert(digits_val(digits) >= 0x8000_0000_0000_0000);
                assert(digits_val(digits) == 0x8000_0000_0000_0000);
                assert(i as int + 1 - start == digits.len()) by {
                    if i as int + 1 - start < digits.len() {
                        lemma_digits_step(digits, i as int + 1 - start);
                    }
                }
            }
            return i64::MIN;
        }
        acc = acc * 10 + d;
        i = i + 1;
    }
    proof {
        assert(s@.subrange(start as int, len as int) =~= digits);
    }
    if negative {
        -acc
    } else {
        acc
    }
}

/// A digit run strictly grows in value with each further digit once it is
/// positive enough.
proof fn lemma_digits_step(s: Seq<char>, i: int)
    requires
        all_digits(s),
        0 <= i < s.len(),
        digits_val(s.subrange(0, i)) >= 1,
    ensures
        digits_val(s.subrange(0, i + 1)) >= 10 * digits_val(s.subrange(0, i)),
        digits_val(s) >= 10 * digits_val(s.subrange(0, i)),
    decreases s.len() - i,
{
    let p = s.subrange(0, i);
    let q = s.subrange(0, i + 1);
    assert(q.drop_last() =~= p);
    assert(digits_val(q) == digits_val(p) * 10 + (q.last() as u32 - '0' as u32));
    if i + 1 < s.len() {
        lemma_digits_step(s, i + 1);
    } else {
        assert(s.subrange(0, i + 1) =~= s);
    }
}

/// Read an optionally signed decimal number into an `i32`.
pub fn parse_i32(s: &str) -> (r: i32)
    requires
        is_signed_digits(s@),
        i32::MIN <= signed_val(s@) <= i32::MAX,
    ensures
        r == signed_val(s@),
{
    let v = parse_i64(s);
    v as i32
}

/// The tokens of a line, with empty ones dropped, as `split_whitespace`
/// yields them for space-separated input.
pub open spec fn spec_tokens(seg: Seq<char>) -> Seq<Seq<char>> {
    spec_split(seg, ' ').filter(|t: Seq<char>| t.len() > 0)
}

/// The non-empty space-separated tokens of a line.
pub fn tokens_of(line: &str) -> (r: Vec<String>)
    ensures
        r.deep_view() == spec_tokens(line@),
{
    let parts = split_char(line, ' ');
    let ghost toks = spec_split(line@, ' ');
    let mut out: Vec<String> = Vec::new();
    let mut i: usize = 0;
    proof {
        reveal(Seq::filter);
        assert(toks.subrange(0, 0) =~= Seq::<Seq<char>>::empty());
        assert(Seq::<Seq<char>>::empty().filter(|t: Seq<char>| t.len() > 0) =~= Seq::<
            Seq<char>,
        >::empty());
    }
    while i < parts.len()
        invariant
            parts.deep_view() == toks,
            parts@.len() == toks.len(),
            i <= toks.len(),
            out.deep_view() =~~= toks.subrange(0, i as int).filter(|t: Seq<char>| t.len() > 0),
        decreases toks.len() - i,
    {
        proof {
            let pred = |t: Seq<char>| t.len() > 0;
            assert(parts@[i as int]@ == toks[i as int]);
            assert(toks.subrange(0, i as int + 1) =~= toks.subrange(0, i as int) + seq![
                toks[i as int]]);
            Seq::<Seq<char>>::filter_distributes_over_add(
                toks.subrange(0, i as int),
                seq![toks[i as int]],
                pred,
            );
            lemma_filter_singleton(toks[i as int], pred);
        }
        if parts[i].as_str().unicode_len() > 0 {
            let tok = parts[i].clone();
            out.push(tok);
        }
        i = i + 1;
    }
    proof {
        assert(toks.subrange(0, toks.len() as int) =~= toks);
    }
    out
}

pub proof fn lemma_filter_singleton<A>(x: A, pred: spec_fn(A) -> bool)
    ensures
        seq![x].filter(pred) == if pred(x) {
            seq![x]
        } else {
            Seq::<A>::empty()
        },
{
    reveal(Seq::filter);
    let s = seq![x];
    assert(s.drop_last() =~= Seq::<A>::empty());
    assert(Seq::<A>::empty().filter(pred) =~= Seq::<A>::empty());
    assert(s.last() == x);
    if pred(x) {
        assert(s.filter(pred) =~= seq![x]);
    } else {
        assert(s.filter(pred) =~= Seq::<A>::empty());
    }
}

} // verus!
