use vstd::prelude::*;
use crate::geometry::{Point, COORD_LIMIT};
use crate::motion::Rectangle;

verus! {

// Wire byte values: ',' '-' '.' and the pad bytes stripped at the ends.
pub const COMMA: u8 = 44;
pub const MINUS: u8 = 45;
pub const DOT: u8 = 46;

/// A byte that the decoder strips from both ends of a read: the zero fill
/// of an oversized read buffer and ASCII whitespace.
pub open spec fn is_pad(b: u8) -> bool {
    b == 0 || b == 32 || b == 9 || b == 10 || b == 13
}

pub open spec fn is_digit(b: u8) -> bool {
    48 <= b <= 57
}

pub open spec fn all_digits(s: Seq<u8>) -> bool {
    forall|i: int| 0 <= i < s.len() ==> is_digit(#[trigger] s[i])
}

/// The number denoted by a run of decimal digit bytes, most significant
/// first.
pub open spec fn digits_val(s: Seq<u8>) -> int
    decreases s.len(),
{
    if s.len() == 0 {
        0
    } else {
        digits_val(s.drop_last()) * 10 + (s.last() - 48)
    }
}

/// The shortest decimal digit run denoting the non-negative number `n`.
pub open spec fn dec_digits(n: int) -> Seq<u8>
    decreases n,
{
    if n <= 9 {
        seq![(48 + if n >= 0 { n } else { 0 }) as u8]
    } else {
        dec_digits(n / 10).push((48 + n % 10) as u8)
    }
}

/// The three zero-padded fractional digits of `m` thousandths, `0 <= m < 1000`.
pub open spec fn frac3(m: int) -> Seq<u8> {
    seq![(48 + m / 100) as u8, (48 + (m / 10) % 10) as u8, (48 + m % 10) as u8]
}

/// The wire form of one non-negative coordinate of `m` subunits: the unit
/// digits, a dot, and exactly three fractional digits.
pub open spec fn fmt_mag(m: int) -> Seq<u8> {
    dec_digits(m / 1000) + seq![DOT] + frac3(m % 1000)
}

/// The wire form of one coordinate field: an optional leading minus sign
/// and the magnitude.
pub open spec fn fmt_field(v: int) -> Seq<u8> {
    if v < 0 {
        seq![MINUS] + fmt_mag(-v)
    } else {
        fmt_mag(v)
    }
}

/// The eight coordinates of a quadrilateral in wire order: both coordinates
/// of top-left, bottom-left, bottom-right, top-right.
pub open spec fn rect_values(r: Rectangle) -> Seq<int> {
    seq![
        r.top_left.x as int,
        r.top_left.y as int,
        r.bottom_left.x as int,
        r.bottom_left.y as int,
        r.bottom_right.x as int,
        r.bottom_right.y as int,
        r.top_right.x as int,
        r.top_right.y as int,
    ]
}

/// The full wire record: the eight coordinate fields in wire order,
/// comma-separated, with no terminator.
pub open spec fn spec_wire_record(r: Rectangle) -> Seq<u8> {
    fmt_field(r.top_left.x as int) + seq![COMMA] + fmt_field(r.top_left.y as int) + seq![COMMA]
        + fmt_field(r.bottom_left.x as int) + seq![COMMA] + fmt_field(r.bottom_left.y as int)
        + seq![COMMA] + fmt_field(r.bottom_right.x as int) + seq![COMMA] + fmt_field(
        r.bottom_right.y as int,
    ) + seq![COMMA] + fmt_field(r.top_right.x as int) + seq![COMMA] + fmt_field(
        r.top_right.y as int,
    )
}

/// Appends the decimal digits of `n` to `out`.
fn push_digits(out: &mut Vec<u8>, n: u64)
    ensures
        final(out)@ == old(out)@ + dec_digits(n as int),
    decreases n,
{
    if n <= 9 {
        out.push(48 + n as u8);
    } else {
        push_digits(out, n / 10);
        out.push(48 + (n % 10) as u8);
        proof {
            assert(out@ =~= old(out)@ + dec_digits(n as int));
        }
    }
}

/// Appends the wire form of one coordinate field to `out`.
fn push_field(out: &mut Vec<u8>, v: i64)
    requires
        -COORD_LIMIT <= v <= COORD_LIMIT,
    ensures
        final(out)@ == old(out)@ + fmt_field(v as int),
{
    let m: u64 = if v < 0 {
        out.push(MINUS);
        (-v) as u64
    } else {
        v as u64
    };
    push_digits(out, m / 1000);
    out.push(DOT);
    let f: u64 = m % 1000;
    out.push(48 + (f / 100) as u8);
    out.push(48 + ((f / 10) % 10) as u8);
    out.push(48 + (f % 10) as u8);
    proof {
        assert(out@ =~= old(out)@ + fmt_field(v as int));
    }
}

/// The length of the leading run of decimal digit bytes.
pub open spec fn first_non_digit(s: Seq<u8>) -> int
    decreases s.len(),
{
    if s.len() == 0 {
        0
    } else if !is_digit(s[0]) {
        0
    } else {
        1 + first_non_digit(s.drop_first())
    }
}

pub open spec fn pow10(k: int) -> int
    decreases k,
{
    if k <= 0 {
        1
    } else {
        10 * pow10(k - 1)
    }
}

/// The value, in subunits, of one unsigned wire magnitude: a run of one to
/// twelve integer digits, optionally followed by a dot and one to three
/// fractional digits. Any other shape is rejected.
pub open spec fn parse_mag(s: Seq<u8>) -> Option<int> {
    let k = first_non_digit(s);
    if k < 1 || k > 12 {
        None
    } else if k == s.len() {
        Some(digits_val(s) * 1000)
    } else if s[k] == DOT && s.len() - k - 1 >= 1 && s.len() - k - 1 <= 3 && all_digits(
        s.subrange(k + 1, s.len() as int),
    ) {
        Some(
            digits_val(s.subrange(0, k)) * 1000 + digits_val(s.subrange(k + 1, s.len() as int))
                * pow10(3 - (s.len() - k - 1)),
        )
    } else {
        None
    }
}

/// The value of one wire field: an optional leading minus sign and a
/// magnitude.
pub open spec fn parse_field(s: Seq<u8>) -> Option<int> {
    if s.len() > 0 && s[0] == MINUS {
        match parse_mag(s.drop_first()) {
            Some(m) => Some(-m),
            None => None,
        }
    } else {
        parse_mag(s)
    }
}

proof fn lemma_pow10_table()
    ensures
        pow10(0) == 1,
        pow10(1) == 10,
        pow10(2) == 100,
        pow10(3) == 1000,
        pow10(11) == 100_000_000_000,
        pow10(12) == 1_000_000_000_000,
{
    reveal_with_fuel(pow10, 14);
}

proof fn lemma_pow10_mono(a: int, b: int)
    requires
        a <= b,
    ensures
        1 <= pow10(a) <= pow10(b),
    decreases b,
{
    if b <= 0 {
    } else if a == b {
        lemma_pow10_mono(a - 1, b - 1);
    } else {
        lemma_pow10_mono(a, b - 1);
    }
}

/// The leading digit run is the unique boundary: everything before `k` is
/// a digit and `k` is the field's end or a non-digit.
proof fn lemma_first_non_digit_is(s: Seq<u8>, k: int)
    requires
        0 <= k <= s.len(),
        forall|i: int| 0 <= i < k ==> is_digit(#[trigger] s[i]),
        k < s.len() ==> !is_digit(s[k]),
    ensures
        first_non_digit(s) == k,
    decreases s.len(),
{
    if k == 0 {
    } else {
        assert(is_digit(s[0]));
        let t = s.drop_first();
        assert forall|i: int| 0 <= i < k - 1 implies is_digit(#[trigger] t[i]) by {
            assert(t[i] == s[i + 1]);
        }
        assert(k - 1 < t.len() ==> !is_digit(t[k - 1]));
        lemma_first_non_digit_is(t, k - 1);
    }
}

/// Scans the digit run beginning at `start`: returns its end.
fn scan_digit_run(buf: &Vec<u8>, start: usize, end: usize) -> (j: usize)
    requires
        start <= end <= buf@.len(),
    ensures
        start <= j <= end,
        forall|t: int| start <= t < j ==> is_digit(#[trigger] buf@[t]),
        j < end ==> !is_digit(buf@[j as int]),
{
    let mut j = start;
    while j < end && buf[j] >= 48 && buf[j] <= 57
        invariant
            start <= j <= end <= buf@.len(),
            forall|t: int| start <= t < j ==> is_digit(#[trigger] buf@[t]),
        decreases end - j,
    {
        j += 1;
    }
    j
}

/// The value of the digit run `buf[start..end]`.
fn digits_run_value(buf: &Vec<u8>, start: usize, end: usize) -> (v: i64)
    requires
        start <= end <= buf@.len(),
        end - start <= 12,
        forall|t: int| start <= t < end ==> is_digit(#[trigger] buf@[t]),
    ensures
        v == digits_val(buf@.subrange(start as int, end as int)),
        0 <= v < pow10(end - start),
{
    proof {
        lemma_pow10_table();
    }
    let mut v: i64 = 0;
    let mut t = start;
    while t < end
        invariant
            start <= t <= end <= buf@.len(),
            end - start <= 12,
            forall|k: int| start <= k < end ==> is_digit(#[trigger] buf@[k]),
            v == digits_val(buf@.subrange(start as int, t as int)),
            0 <= v < pow10(t - start),
            pow10(11) == 100_000_000_000,
        decreases end - t,
    {
        proof {
            lemma_pow10_mono(t - start, 11);
            let pre = buf@.subrange(start as int, t as int);
            let post = buf@.subrange(start as int, t + 1);
            assert(post.drop_last() =~= pre);
            assert(post.last() == buf@[t as int]);
            assert(pow10(t + 1 - start) == 10 * pow10(t - start));
        }
        v = v * 10 + (buf[t] - 48) as i64;
        t += 1;
    }
    v
}

/// Parses the wire field `buf[start..end]`, yielding its value in subunits
/// exactly when the bytes match the field grammar; the value of any
/// accepted field lies within the tracked coordinate range.
#[verifier::rlimit(50)]
fn parse_field_at(buf: &Vec<u8>, start: usize, end: usize) -> (r: Option<i64>)
    requires
        start <= end <= buf@.len(),
    ensures
        ({
            let field = buf@.subrange(start as int, end as int);
            match r {
                Some(v) => parse_field(field) == Some(v as int) && -COORD_LIMIT <= v
                    <= COORD_LIMIT,
                None => parse_field(field) is None,
            }
        }),
{
    let ghost field = buf@.subrange(start as int, end as int);
    proof {
        lemma_pow10_table();
    }
    let mut i = start;
    let mut neg = false;
    if i < end && buf[i] == MINUS {
        neg = true;
        i += 1;
    }
    let ghost mag = if neg {
        field.drop_first()
    } else {
        field
    };
    proof {
        assert(mag =~= buf@.subrange(i as int, end as int));
    }
    let j = scan_digit_run(buf, i, end);
    proof {
        assert forall|t: int| 0 <= t < j - i implies is_digit(#[trigger] mag[t]) by {
            assert(mag[t] == buf@[i + t]);
        }
        assert(j - i < mag.len() ==> !is_digit(mag[j - i]));
        lemma_first_non_digit_is(mag, j - i);
    }
    let klen = j - i;
    if klen < 1 || klen > 12 {
        return None;
    }
    let acc = digits_run_value(buf, i, j);
    proof {
        assert(buf@.subrange(i as int, j as int) =~= mag.subrange(0, klen as int));
        lemma_pow10_mono(klen as int, 12);
    }
    if j == end {
        proof {
            assert(mag.subrange(0, klen as int) =~= mag);
        }
        let v = acc * 1000;
        if neg {
            return Some(-v);
        }
        return Some(v);
    }
    if buf[j] != DOT {
        return None;
    }
    let fs = j + 1;
    let fe = scan_digit_run(buf, fs, end);
    if fe < end {
        proof {
            let fsub = mag.subrange(klen + 1, mag.len() as int);
            assert(fsub[fe - fs] == buf@[fe as int]);
            assert(!all_digits(fsub));
        }
        return None;
    }
    let flen = end - fs;
    if flen < 1 || flen > 3 {
        return None;
    }
    let facc = digits_run_value(buf, fs, end);
    proof {
        let fsub = mag.subrange(klen + 1, mag.len() as int);
        assert(fsub =~= buf@.subrange(fs as int, end as int));
        assert(all_digits(fsub));
        assert(digits_val(fsub) == facc);
    }
    let frac_subunits: i64;
    if flen == 1 {
        proof {
            assert(facc < pow10(1));
            assert(facc <= 9);
            assert(pow10(3 - (mag.len() - klen - 1)) == 100);
        }
        frac_subunits = facc * 100;
    } else if flen == 2 {
        proof {
            assert(facc < pow10(2));
            assert(facc <= 99);
            assert(pow10(3 - (mag.len() - klen - 1)) == 10);
        }
        frac_subunits = facc * 10;
    } else {
        proof {
            assert(facc < pow10(3));
            assert(facc <= 999);
            assert(pow10(3 - (mag.len() - klen - 1)) == 1);
        }
        frac_subunits = facc;
    }
    proof {
        assert(frac_subunits == digits_val(mag.subrange(klen + 1, mag.len() as int)) * pow10(
            3 - (mag.len() - klen - 1),
        ));
        assert(0 <= frac_subunits <= 999);
        assert(acc < pow10(12));
        assert(acc * 1000 <= 999_999_999_999_000);
    }
    let v = acc * 1000 + frac_subunits;
    if neg {
        Some(-v)
    } else {
        Some(v)
    }
}

/// The input with its leading pad bytes stripped.
pub open spec fn trim_front(s: Seq<u8>) -> Seq<u8>
    decreases s.len(),
{
    if s.len() > 0 && is_pad(s[0]) {
        trim_front(s.drop_first())
    } else {
        s
    }
}

/// The input with its trailing pad bytes stripped.
pub open spec fn trim_back(s: Seq<u8>) -> Seq<u8>
    decreases s.len(),
{
    if s.len() > 0 && is_pad(s.last()) {
        trim_back(s.drop_last())
    } else {
        s
    }
}

/// The input with pad bytes stripped from both ends.
pub open spec fn trim_pad(s: Seq<u8>) -> Seq<u8> {
    trim_back(trim_front(s))
}

/// The comma-separated fields of the input, in order. An input without a
/// comma is one field; each comma ends a field, so `n` commas give `n + 1`
/// fields, empty fields included.
pub open spec fn split_fields(s: Seq<u8>) -> Seq<Seq<u8>>
    decreases s.len(),
{
    if s.len() == 0 {
        seq![Seq::<u8>::empty()]
    } else if s[0] == COMMA {
        seq![Seq::<u8>::empty()] + split_fields(s.drop_first())
    } else {
        let rest = split_fields(s.drop_first());
        seq![seq![s[0]] + rest[0]] + rest.drop_first()
    }
}

/// The values of the fields that parse, in order; fields that do not parse
/// are discarded without an error of their own.
pub open spec fn parsed_values(fields: Seq<Seq<u8>>) -> Seq<int>
    decreases fields.len(),
{
    if fields.len() == 0 {
        Seq::empty()
    } else {
        match parse_field(fields[0]) {
            Some(v) => seq![v] + parsed_values(fields.drop_first()),
            None => parsed_values(fields.drop_first()),
        }
    }
}

/// A UTF-8 continuation byte.
pub open spec fn is_utf8_cont(b: u8) -> bool {
    0x80 <= b <= 0xBF
}

/// UTF-8 validity of a byte sequence, by the shortest-form grammar: each
/// scalar is one ASCII byte, or a two- to four-byte sequence whose lead
/// byte fixes its length and whose first continuation range excludes
/// overlong forms and surrogates.
pub open spec fn is_utf8(s: Seq<u8>) -> bool
    decreases s.len(),
{
    if s.len() == 0 {
        true
    } else {
        let b0 = s[0];
        if b0 <= 0x7F {
            is_utf8(s.subrange(1, s.len() as int))
        } else if 0xC2 <= b0 <= 0xDF {
            s.len() >= 2 && is_utf8_cont(s[1]) && is_utf8(s.subrange(2, s.len() as int))
        } else if b0 == 0xE0 {
            s.len() >= 3 && 0xA0 <= s[1] <= 0xBF && is_utf8_cont(s[2]) && is_utf8(
                s.subrange(3, s.len() as int),
            )
        } else if 0xE1 <= b0 <= 0xEC || b0 == 0xEE || b0 == 0xEF {
            s.len() >= 3 && is_utf8_cont(s[1]) && is_utf8_cont(s[2]) && is_utf8(
                s.subrange(3, s.len() as int),
            )
        } else if b0 == 0xED {
            s.len() >= 3 && 0x80 <= s[1] <= 0x9F && is_utf8_cont(s[2]) && is_utf8(
                s.subrange(3, s.len() as int),
            )
        } else if b0 == 0xF0 {
            s.len() >= 4 && 0x90 <= s[1] <= 0xBF && is_utf8_cont(s[2]) && is_utf8_cont(s[3])
                && is_utf8(s.subrange(4, s.len() as int))
        } else if 0xF1 <= b0 <= 0xF3 {
            s.len() >= 4 && is_utf8_cont(s[1]) && is_utf8_cont(s[2]) && is_utf8_cont(s[3])
                && is_utf8(s.subrange(4, s.len() as int))
        } else if b0 == 0xF4 {
            s.len() >= 4 && 0x80 <= s[1] <= 0x8F && is_utf8_cont(s[2]) && is_utf8_cont(s[3])
                && is_utf8(s.subrange(4, s.len() as int))
        } else {
            false
        }
    }
}

/// A sequence of ASCII bytes is valid UTF-8.
proof fn lemma_ascii_is_utf8(s: Seq<u8>)
    requires
        forall|i: int| 0 <= i < s.len() ==> (#[trigger] s[i]) <= 0x7F,
    ensures
        is_utf8(s),
    decreases s.len(),
{
    if s.len() > 0 {
        let t = s.subrange(1, s.len() as int);
        assert forall|i: int| 0 <= i < t.len() implies (#[trigger] t[i]) <= 0x7F by {
            assert(t[i] == s[i + 1]);
        }
        lemma_ascii_is_utf8(t);
    }
}

fn is_cont_byte(b: u8) -> (r: bool)
    ensures
        r == is_utf8_cont(b),
{
    0x80 <= b && b <= 0xBF
}

/// Decides UTF-8 validity of `buf[start..end]` against the grammar above.
fn is_utf8_region(buf: &Vec<u8>, start: usize, end: usize) -> (r: bool)
    requires
        start <= end <= buf@.len(),
    ensures
        r == is_utf8(buf@.subrange(start as int, end as int)),
{
    let ghost region = buf@.subrange(start as int, end as int);
    proof {
        assert(region.subrange(0, region.len() as int) =~= region);
    }
    let mut i = start;
    while i < end
        invariant
            start <= i <= end <= buf@.len(),
            region == buf@.subrange(start as int, end as int),
            is_utf8(region) == is_utf8(region.subrange(i - start, region.len() as int)),
        decreases end - i,
    {
        let ghost t = region.subrange(i - start, region.len() as int);
        proof {
            assert forall|j: int| 0 <= j < t.len() implies t[j] == buf@[i + j] by {
            }
        }
        let b0 = buf[i];
        let remaining = end - i;
        let mut k: usize = 0;
        if b0 <= 0x7F {
            k = 1;
        } else if 0xC2 <= b0 && b0 <= 0xDF {
            if remaining >= 2 && is_cont_byte(buf[i + 1]) {
                k = 2;
            }
        } else if b0 == 0xE0 {
            if remaining >= 3 && 0xA0 <= buf[i + 1] && buf[i + 1] <= 0xBF && is_cont_byte(
                buf[i + 2],
            ) {
                k = 3;
            }
        } else if (0xE1 <= b0 && b0 <= 0xEC) || b0 == 0xEE || b0 == 0xEF {
            if remaining >= 3 && is_cont_byte(buf[i + 1]) && is_cont_byte(buf[i + 2]) {
                k = 3;
            }
        } else if b0 == 0xED {
            if remaining >= 3 && 0x80 <= buf[i + 1] && buf[i + 1] <= 0x9F && is_cont_byte(
                buf[i + 2],
            ) {
                k = 3;
            }
        } else if b0 == 0xF0 {
            if remaining >= 4 && 0x90 <= buf[i + 1] && buf[i + 1] <= 0xBF && is_cont_byte(
                buf[i + 2],
            ) && is_cont_byte(buf[i + 3]) {
                k = 4;
            }
        } else if 0xF1 <= b0 && b0 <= 0xF3 {
            if remaining >= 4 && is_cont_byte(buf[i + 1]) && is_cont_byte(buf[i + 2])
                && is_cont_byte(buf[i + 3]) {
                k = 4;
            }
        } else if b0 == 0xF4 {
            if remaining >= 4 && 0x80 <= buf[i + 1] && buf[i + 1] <= 0x8F && is_cont_byte(
                buf[i + 2],
            ) && is_cont_byte(buf[i + 3]) {
                k = 4;
            }
        }
        if k == 0 {
            proof {
                assert(!is_utf8(t));
            }
            return false;
        }
        proof {
            assert(is_utf8(t) == is_utf8(t.subrange(k as int, t.len() as int)));
            assert(t.subrange(k as int, t.len() as int) =~= region.subrange(
                i + k - start,
                region.len() as int,
            ));
        }
        i += k;
    }
    proof {
        assert(region.subrange(i - start, region.len() as int) =~= Seq::<u8>::empty());
    }
    true
}

/// The whole decode step: trim the pad bytes, test that the rest is valid
/// UTF-8 text, split on commas, parse each field, discard fields that
/// fail, and accept exactly eight values.
pub open spec fn spec_decode(s: Seq<u8>) -> Option<Seq<int>> {
    let t = trim_pad(s);
    if !is_utf8(t) {
        None
    } else {
        let vals = parsed_values(split_fields(t));
        if vals.len() == 8 {
            Some(vals)
        } else {
            None
        }
    }
}

proof fn lemma_split_len(s: Seq<u8>)
    ensures
        split_fields(s).len() >= 1,
    decreases s.len(),
{
    if s.len() == 0 {
    } else {
        lemma_split_len(s.drop_first());
    }
}

/// Trimming the front keeps exactly the suffix from the first non-pad byte.
proof fn lemma_trim_front_range(s: Seq<u8>, lo: int)
    requires
        0 <= lo <= s.len(),
        forall|i: int| 0 <= i < lo ==> is_pad(#[trigger] s[i]),
        lo < s.len() ==> !is_pad(s[lo]),
    ensures
        trim_front(s) == s.subrange(lo, s.len() as int),
    decreases lo,
{
    if lo == 0 {
        assert(s.subrange(0, s.len() as int) =~= s);
    } else {
        let t = s.drop_first();
        assert forall|i: int| 0 <= i < lo - 1 implies is_pad(#[trigger] t[i]) by {
            assert(t[i] == s[i + 1]);
        }
        lemma_trim_front_range(t, lo - 1);
        assert(t.subrange(lo - 1, t.len() as int) =~= s.subrange(lo, s.len() as int));
    }
}

/// Trimming the back keeps exactly the prefix up to the last non-pad byte.
proof fn lemma_trim_back_range(s: Seq<u8>, hi: int)
    requires
        0 <= hi <= s.len(),
        forall|i: int| hi <= i < s.len() ==> is_pad(#[trigger] s[i]),
        hi > 0 ==> !is_pad(s[hi - 1]),
    ensures
        trim_back(s) == s.subrange(0, hi),
    decreases s.len(),
{
    if hi == s.len() {
        assert(s.subrange(0, hi) =~= s);
        if s.len() > 0 {
            assert(!is_pad(s.last()));
        }
    } else {
        assert(is_pad(s.last()));
        let t = s.drop_last();
        lemma_trim_back_range(t, hi);
        assert(t.subrange(0, hi) =~= s.subrange(0, hi));
    }
}

/// A comma-free input is one single field.
proof fn lemma_split_nocomma(s: Seq<u8>)
    requires
        forall|i: int| 0 <= i < s.len() ==> s[i] != COMMA,
    ensures
        split_fields(s) == seq![s],
    decreases s.len(),
{
    if s.len() == 0 {
        assert(split_fields(s) =~~= seq![s]);
    } else {
        let t = s.drop_first();
        assert forall|i: int| 0 <= i < t.len() implies t[i] != COMMA by {
            assert(t[i] == s[i + 1]);
        }
        lemma_split_nocomma(t);
        assert(seq![s[0]] + t =~= s);
        assert(split_fields(s) =~~= seq![s]);
    }
}

/// Splitting at the first comma peels off one comma-free field.
proof fn lemma_split_at_comma(a: Seq<u8>, b: Seq<u8>)
    requires
        forall|i: int| 0 <= i < a.len() ==> a[i] != COMMA,
    ensures
        split_fields(a + seq![COMMA] + b) == seq![a] + split_fields(b),
    decreases a.len(),
{
    let s = a + seq![COMMA] + b;
    if a.len() == 0 {
        assert(s[0] == COMMA);
        assert(s.drop_first() =~= b);
        assert(split_fields(s) =~~= seq![a] + split_fields(b));
    } else {
        let a2 = a.drop_first();
        assert forall|i: int| 0 <= i < a2.len() implies a2[i] != COMMA by {
            assert(a2[i] == a[i + 1]);
        }
        lemma_split_at_comma(a2, b);
        assert(s[0] == a[0]);
        assert(s[0] != COMMA);
        assert(s.drop_first() =~= a2 + seq![COMMA] + b);
        let rest = split_fields(s.drop_first());
        assert(rest == seq![a2] + split_fields(b));
        lemma_split_len(b);
        assert(rest[0] == a2);
        assert(seq![s[0]] + rest[0] =~= a);
        assert(rest.drop_first() =~= split_fields(b));
        assert(split_fields(s) =~~= seq![a] + split_fields(b));
    }
}

/// One unfolding of `parsed_values` at an explicit first field.
proof fn lemma_parsed_cons(f: Seq<u8>, rest: Seq<Seq<u8>>)
    ensures
        parsed_values(seq![f] + rest) == match parse_field(f) {
            Some(v) => seq![v] + parsed_values(rest),
            None => parsed_values(rest),
        },
{
    let fs = seq![f] + rest;
    assert(fs[0] == f);
    assert(fs.drop_first() =~= rest);
}

fn is_pad_byte(b: u8) -> (r: bool)
    ensures
        r == is_pad(b),
{
    b == 0 || b == 32 || b == 9 || b == 10 || b == 13
}

/// The decoder's error: the read was not valid UTF-8 text or did not hold
/// exactly eight parsable comma-separated numbers.
#[derive(Clone, Copy, PartialEq, Eq, Structural, Debug)]
pub enum DecodeError {
    InvalidFormat,
}

/// The four corner points recovered from one wire record, in the fixed
/// order top-left, bottom-left, bottom-right, top-right.
#[derive(Clone, Copy, PartialEq, Eq, Structural, Debug)]
pub struct Corners {
    pub top_left: Point,
    pub bottom_left: Point,
    pub bottom_right: Point,
    pub top_right: Point,
}

/// The eight coordinates of recovered corners, in wire order.
pub open spec fn corners_values(c: Corners) -> Seq<int> {
    seq![
        c.top_left.x as int,
        c.top_left.y as int,
        c.bottom_left.x as int,
        c.bottom_left.y as int,
        c.bottom_right.x as int,
        c.bottom_right.y as int,
        c.top_right.x as int,
        c.top_right.y as int,
    ]
}

impl Corners {
    pub open spec fn in_range(self) -> bool {
        self.top_left.in_range() && self.bottom_left.in_range() && self.bottom_right.in_range()
            && self.top_right.in_range()
    }
}

/// The digits of `dec_digits(n)` denote `n` and nothing else fits: the
/// run is non-empty, all digits, below `10^len`, and at least `10^(len-1)`
/// once `n` has a leading digit.
proof fn lemma_dec_digits(n: int)
    requires
        0 <= n,
    ensures
        all_digits(dec_digits(n)),
        digits_val(dec_digits(n)) == n,
        1 <= dec_digits(n).len(),
        n < pow10(dec_digits(n).len() as int),
        n >= 1 ==> pow10(dec_digits(n).len() - 1) <= n,
    decreases n,
{
    vstd::arithmetic::div_mod::lemma_fundamental_div_mod(n, 10);
    if n <= 9 {
        let d = dec_digits(n);
        assert(d =~= seq![(48 + n) as u8]);
        assert((48 + n) as u8 == 48 + n);
        assert(d.drop_last() =~= Seq::<u8>::empty());
        assert(digits_val(Seq::<u8>::empty()) == 0);
        assert(digits_val(d) == d.last() - 48);
        assert(pow10(1) == 10 * pow10(0));
    } else {
        let q = n / 10;
        lemma_dec_digits(q);
        let p = dec_digits(q);
        let d = dec_digits(n);
        assert(d == p.push((48 + n % 10) as u8));
        assert(d.drop_last() =~= p);
        assert forall|i: int| 0 <= i < d.len() implies is_digit(#[trigger] d[i]) by {
            if i < p.len() {
                assert(d[i] == p[i]);
            }
        }
        assert(pow10(d.len() as int) == 10 * pow10(p.len() as int));
        assert(pow10(d.len() - 1) == 10 * pow10(p.len() - 1));
    }
}

/// A value of at most twelve nines keeps its digit run within twelve.
proof fn lemma_dec_digits_len12(n: int)
    requires
        0 <= n <= 999_999_999_999,
    ensures
        dec_digits(n).len() <= 12,
{
    lemma_dec_digits(n);
    if dec_digits(n).len() > 12 {
        if n >= 1 {
            lemma_pow10_mono(12, dec_digits(n).len() - 1);
            lemma_pow10_table();
        }
    }
}

/// A formatted field holds only a sign, digits and one dot: ASCII bytes,
/// never a comma and never a pad byte, so trimming and splitting leave it
/// whole and it is valid UTF-8 text.
proof fn lemma_fmt_field_wire_safe(v: int)
    requires
        -(COORD_LIMIT as int) <= v <= COORD_LIMIT as int,
    ensures
        fmt_field(v).len() >= 1,
        forall|i: int|
            0 <= i < fmt_field(v).len() ==> (#[trigger] fmt_field(v)[i]) != COMMA && !is_pad(
                fmt_field(v)[i],
            ) && fmt_field(v)[i] <= 0x7F,
{
    let m = if v < 0 {
        -v
    } else {
        v
    };
    let dd = dec_digits(m / 1000);
    let f3 = frac3(m % 1000);
    lemma_dec_digits(m / 1000);
    vstd::arithmetic::div_mod::lemma_fundamental_div_mod(m, 1000);
    let mag = fmt_mag(m);
    assert forall|i: int| 0 <= i < mag.len() implies (#[trigger] mag[i]) != COMMA && !is_pad(
        mag[i],
    ) && mag[i] <= 0x7F by {
        if i < dd.len() {
            assert(mag[i] == dd[i]);
            assert(is_digit(dd[i]));
        } else if i == dd.len() {
            assert(mag[i] == DOT);
        } else {
            assert(mag[i] == f3[i - dd.len() - 1]);
            assert(0 <= m % 1000 < 1000);
        }
    }
    if v < 0 {
        let w = fmt_field(v);
        assert forall|i: int| 0 <= i < w.len() implies (#[trigger] w[i]) != COMMA && !is_pad(
            w[i],
        ) && w[i] <= 0x7F by {
            if i == 0 {
                assert(w[0] == MINUS);
            } else {
                assert(w[i] == mag[i - 1]);
            }
        }
    }
}

/// Parsing a formatted field gives back exactly the value it was formatted
/// from: the field-level round trip.
proof fn lemma_parse_fmt_field(v: int)
    requires
        -(COORD_LIMIT as int) <= v <= COORD_LIMIT as int,
    ensures
        parse_field(fmt_field(v)) == Some(v),
{
    let m = if v < 0 {
        -v
    } else {
        v
    };
    let f = m % 1000;
    vstd::arithmetic::div_mod::lemma_fundamental_div_mod(m, 1000);
    lemma_dec_digits(m / 1000);
    lemma_dec_digits_len12(m / 1000);
    lemma_pow10_table();
    let dd = dec_digits(m / 1000);
    let f3 = frac3(f);
    let mag = fmt_mag(m);
    let k = dd.len() as int;
    assert forall|i: int| 0 <= i < k implies is_digit(#[trigger] mag[i]) by {
        assert(mag[i] == dd[i]);
    }
    assert(mag[k] == DOT);
    lemma_first_non_digit_is(mag, k);
    assert(mag.subrange(0, k) =~= dd);
    assert(mag.subrange(k + 1, mag.len() as int) =~= f3);
    assert(0 <= f < 1000);
    assert forall|i: int| 0 <= i < f3.len() implies is_digit(#[trigger] f3[i]) by {
        if i == 0 {
            assert(f3[0] == (48 + f / 100) as u8);
        } else if i == 1 {
            assert(f3[1] == (48 + (f / 10) % 10) as u8);
        } else {
            assert(f3[2] == (48 + f % 10) as u8);
        }
    }
    // The three fractional digits denote f again.
    vstd::arithmetic::div_mod::lemma_fundamental_div_mod(f, 100);
    vstd::arithmetic::div_mod::lemma_breakdown(f, 10, 10);
    assert(0 <= f % 100 < 100);
    assert(0 <= f / 100 <= 9);
    assert(0 <= (f / 10) % 10 <= 9);
    assert(0 <= f % 10 <= 9);
    assert((48 + f / 100) as u8 == 48 + f / 100);
    assert((48 + (f / 10) % 10) as u8 == 48 + (f / 10) % 10);
    assert((48 + f % 10) as u8 == 48 + f % 10);
    let d0 = seq![f3[0]];
    let d01 = seq![f3[0], f3[1]];
    assert(d0.drop_last() =~= Seq::<u8>::empty());
    assert(d01.drop_last() =~= d0);
    assert(f3.drop_last() =~= d01);
    assert(digits_val(Seq::<u8>::empty()) == 0);
    assert(d0.last() == 48 + f / 100);
    assert(digits_val(d0) == f / 100);
    assert(digits_val(d01) == (f / 100) * 10 + (f / 10) % 10);
    assert(digits_val(f3) == digits_val(d01) * 10 + f % 10);
    assert(digits_val(f3) == (f / 100) * 100 + ((f / 10) % 10) * 10 + f % 10);
    assert(digits_val(f3) == f);
    assert(parse_mag(mag) == Some((m / 1000) * 1000 + f));
    assert(parse_mag(mag) == Some(m));
    if v < 0 {
        let w = fmt_field(v);
        assert(w[0] == MINUS);
        assert(w.drop_first() =~= mag);
    } else {
        assert(fmt_field(v) == mag);
        assert(mag[0] == dd[0]);
        assert(is_digit(dd[0]));
    }
}

/// The wire text of a non-empty value list: the formatted fields joined by
/// commas.
pub open spec fn wire_of_values(vals: Seq<int>) -> Seq<u8>
    decreases vals.len(),
{
    if vals.len() == 0 {
        Seq::empty()
    } else if vals.len() == 1 {
        fmt_field(vals[0])
    } else {
        fmt_field(vals[0]) + seq![COMMA] + wire_of_values(vals.drop_first())
    }
}

/// Splitting and parsing the joined wire text of in-range values gives the
/// values back unchanged.
proof fn lemma_wire_values_decode(vals: Seq<int>)
    requires
        vals.len() >= 1,
        forall|i: int|
            0 <= i < vals.len() ==> -(COORD_LIMIT as int) <= #[trigger] vals[i] <= COORD_LIMIT
                as int,
    ensures
        wire_of_values(vals).len() >= 1,
        !is_pad(wire_of_values(vals)[0]),
        !is_pad(wire_of_values(vals).last()),
        forall|i: int|
            0 <= i < wire_of_values(vals).len() ==> (#[trigger] wire_of_values(vals)[i]) <= 0x7F,
        parsed_values(split_fields(wire_of_values(vals))) == vals,
    decreases vals.len(),
{
    let w = wire_of_values(vals);
    let f0 = fmt_field(vals[0]);
    lemma_fmt_field_wire_safe(vals[0]);
    lemma_parse_fmt_field(vals[0]);
    if vals.len() == 1 {
        lemma_split_nocomma(f0);
        lemma_parsed_cons(f0, Seq::<Seq<u8>>::empty());
        assert(seq![f0] + Seq::<Seq<u8>>::empty() =~~= seq![f0]);
        assert(seq![vals[0]] + parsed_values(Seq::<Seq<u8>>::empty()) =~= vals);
    } else {
        let rest = vals.drop_first();
        assert forall|i: int|
            0 <= i < rest.len() implies -(COORD_LIMIT as int) <= #[trigger] rest[i] <= COORD_LIMIT
            as int by {
            assert(rest[i] == vals[i + 1]);
        }
        lemma_wire_values_decode(rest);
        let wr = wire_of_values(rest);
        lemma_split_at_comma(f0, wr);
        lemma_parsed_cons(f0, split_fields(wr));
        assert(seq![vals[0]] + rest =~= vals);
        assert(w[0] == f0[0]);
        assert(w.last() == wr.last());
        assert forall|i: int| 0 <= i < w.len() implies (#[trigger] w[i]) <= 0x7F by {
            if i < f0.len() {
                assert(w[i] == f0[i]);
            } else if i == f0.len() {
                assert(w[i] == COMMA);
            } else {
                assert(w[i] == wr[i - f0.len() - 1]);
            }
        }
    }
}

/// The serialized record is the comma-join of the eight formatted corner
/// coordinates in wire order.
#[verifier::rlimit(100)]
proof fn lemma_wire_record_shape(r: Rectangle)
    requires
        r.wf(),
    ensures
        spec_wire_record(r) == wire_of_values(rect_values(r)),
{
    let vals = rect_values(r);
    let w = wire_of_values(vals);
    let v1 = vals.drop_first();
    let v2 = v1.drop_first();
    let v3 = v2.drop_first();
    let v4 = v3.drop_first();
    let v5 = v4.drop_first();
    let v6 = v5.drop_first();
    let v7 = v6.drop_first();
    assert(v7.len() == 1);
    assert(v1[0] == vals[1] && v2[0] == vals[2] && v3[0] == vals[3] && v4[0] == vals[4] && v5[0]
        == vals[5] && v6[0] == vals[6] && v7[0] == vals[7]);
    assert(wire_of_values(v7) == fmt_field(vals[7]));
    assert(wire_of_values(v6) == fmt_field(vals[6]) + seq![COMMA] + wire_of_values(v7));
    assert(wire_of_values(v5) == fmt_field(vals[5]) + seq![COMMA] + wire_of_values(v6));
    assert(wire_of_values(v4) == fmt_field(vals[4]) + seq![COMMA] + wire_of_values(v5));
    assert(wire_of_values(v3) == fmt_field(vals[3]) + seq![COMMA] + wire_of_values(v4));
    assert(wire_of_values(v2) == fmt_field(vals[2]) + seq![COMMA] + wire_of_values(v3));
    assert(wire_of_values(v1) == fmt_field(vals[1]) + seq![COMMA] + wire_of_values(v2));
    assert(w == fmt_field(vals[0]) + seq![COMMA] + wire_of_values(v1));
    assert(spec_wire_record(r) =~= w);
}

/// The round-trip law: decoding the wire record of any well-formed
/// quadrilateral succeeds and yields exactly its eight corner coordinates,
/// so any corners that carry the decoded values reconstruct the same
/// center and heading as the producer's own corners.
#[verifier::rlimit(100)]
pub proof fn lemma_wire_round_trip(r: Rectangle)
    requires
        r.wf(),
    ensures
        spec_decode(spec_wire_record(r)) == Some(rect_values(r)),
        forall|c: Corners|
            #[trigger] corners_values(c) == rect_values(r) ==> crate::geometry::spec_frame(
                c.top_left,
                c.bottom_right,
                c.top_right,
            ) == crate::geometry::spec_frame(r.top_left, r.bottom_right, r.top_right),
{
    assert forall|c: Corners| #[trigger] corners_values(c) == rect_values(r) implies
        crate::geometry::spec_frame(c.top_left, c.bottom_right, c.top_right)
        == crate::geometry::spec_frame(r.top_left, r.bottom_right, r.top_right) by {
        assert(corners_values(c)[0] == rect_values(r)[0]);
        assert(corners_values(c)[1] == rect_values(r)[1]);
        assert(corners_values(c)[4] == rect_values(r)[4]);
        assert(corners_values(c)[5] == rect_values(r)[5]);
        assert(corners_values(c)[6] == rect_values(r)[6]);
        assert(corners_values(c)[7] == rect_values(r)[7]);
    }
    let vals = rect_values(r);
    assert forall|i: int|
        0 <= i < vals.len() implies -(COORD_LIMIT as int) <= #[trigger] vals[i] <= COORD_LIMIT
        as int by {
    }
    let w = wire_of_values(vals);
    lemma_wire_values_decode(vals);
    lemma_ascii_is_utf8(w);
    lemma_wire_record_shape(r);
    assert(trim_front(w) == w);
    assert(trim_back(w) == w);
    assert(trim_pad(w) == w);
}

/// Decodes the bytes of one read: strips pad bytes from both ends,
/// rejects a read that is not valid UTF-8 text, splits the rest on
/// commas, parses each field as a decimal number discarding fields that
/// fail, and accepts the read exactly when eight values remain, mapped
/// positionally onto the four corners.
pub fn decode_record(input: &Vec<u8>) -> (r: Result<Corners, DecodeError>)
    ensures
        r is Ok <==> spec_decode(input@) is Some,
        r matches Ok(c) ==> Some(corners_values(c)) == spec_decode(input@) && c.in_range(),
        r matches Err(e) ==> e == DecodeError::InvalidFormat,
{
    let n = input.len();
    let mut lo: usize = 0;
    while lo < n && is_pad_byte(input[lo])
        invariant
            0 <= lo <= n == input@.len(),
            forall|i: int| 0 <= i < lo ==> is_pad(#[trigger] input@[i]),
        decreases n - lo,
    {
        lo += 1;
    }
    let mut hi: usize = n;
    while hi > lo && is_pad_byte(input[hi - 1])
        invariant
            lo <= hi <= n == input@.len(),
            forall|i: int| hi <= i < n ==> is_pad(#[trigger] input@[i]),
        decreases hi,
    {
        hi -= 1;
    }
    let ghost t = input@.subrange(lo as int, hi as int);
    proof {
        lemma_trim_front_range(input@, lo as int);
        let front = input@.subrange(lo as int, n as int);
        assert forall|i: int| hi - lo <= i < front.len() implies is_pad(#[trigger] front[i]) by {
            assert(front[i] == input@[lo + i]);
        }
        if hi > lo {
            assert(front[hi - lo - 1] == input@[hi - 1]);
        }
        lemma_trim_back_range(front, hi - lo);
        assert(front.subrange(0, hi - lo) =~= t);
        assert(trim_pad(input@) == t);
    }
    if !is_utf8_region(input, lo, hi) {
        return Err(DecodeError::InvalidFormat);
    }
    let mut pos = lo;
    let mut vals: Vec<i64> = Vec::new();
    proof {
        assert(t.subrange(0, t.len() as int) =~= t);
        assert(vals@.map_values(|x: i64| x as int) =~= Seq::<int>::empty());
    }
    loop
        invariant_except_break
            parsed_values(split_fields(t)) == vals@.map_values(|x: i64| x as int)
                + parsed_values(split_fields(t.subrange(pos - lo, t.len() as int))),
        invariant
            lo <= pos <= hi <= n == input@.len(),
            t == input@.subrange(lo as int, hi as int),
            forall|k: int|
                0 <= k < vals@.len() ==> -COORD_LIMIT <= #[trigger] vals@[k] <= COORD_LIMIT,
        ensures
            parsed_values(split_fields(t)) == vals@.map_values(|x: i64| x as int),
        decreases hi - pos,
    {
        let mut end = pos;
        while end < hi && input[end] != COMMA
            invariant
                pos <= end <= hi <= input@.len(),
                forall|i: int| pos <= i < end ==> input@[i] != COMMA,
            decreases hi - end,
        {
            end += 1;
        }
        let ghost gf = input@.subrange(pos as int, end as int);
        let ghost rem = t.subrange(pos - lo, t.len() as int);
        proof {
            assert forall|i: int| 0 <= i < gf.len() implies gf[i] != COMMA by {
                assert(gf[i] == input@[pos + i]);
            }
        }
        let parsed = parse_field_at(input, pos, end);
        if end == hi {
            proof {
                assert(rem =~= gf);
                lemma_split_nocomma(rem);
                assert(parsed_values(split_fields(rem)) == parsed_values(seq![gf]));
                lemma_parsed_cons(gf, Seq::<Seq<u8>>::empty());
                assert(seq![gf] + Seq::<Seq<u8>>::empty() =~= seq![gf]);
            }
            match parsed {
                Some(v) => {
                    let ghost prev = vals@;
                    vals.push(v);
                    proof {
                        assert(vals@.map_values(|x: i64| x as int) =~= prev.map_values(
                            |x: i64| x as int,
                        ).push(v as int));
                        assert(parsed_values(split_fields(t)) =~= vals@.map_values(
                            |x: i64| x as int,
                        ));
                    }
                },
                None => {
                    proof {
                        assert(parsed_values(split_fields(t)) =~= vals@.map_values(
                            |x: i64| x as int,
                        ));
                    }
                },
            }
            break;
        }
        proof {
            assert(input@[end as int] == COMMA);
            let rem2 = t.subrange(end + 1 - lo, t.len() as int);
            assert(rem =~= gf + seq![COMMA] + rem2);
            lemma_split_at_comma(gf, rem2);
            lemma_parsed_cons(gf, split_fields(rem2));
        }
        match parsed {
            Some(v) => {
                let ghost prev = vals@;
                vals.push(v);
                proof {
                    assert(vals@.map_values(|x: i64| x as int) =~= prev.map_values(
                        |x: i64| x as int,
                    ).push(v as int));
                }
            },
            None => {},
        }
        pos = end + 1;
    }
    proof {
        assert(parsed_values(split_fields(trim_pad(input@))) == vals@.map_values(
            |x: i64| x as int,
        ));
        assert(vals@.map_values(|x: i64| x as int).len() == vals@.len());
    }
    if vals.len() == 8 {
        let c = Corners {
            top_left: Point { x: vals[0], y: vals[1] },
            bottom_left: Point { x: vals[2], y: vals[3] },
            bottom_right: Point { x: vals[4], y: vals[5] },
            top_right: Point { x: vals[6], y: vals[7] },
        };
        proof {
            assert(corners_values(c) =~= vals@.map_values(|x: i64| x as int));
        }
        Ok(c)
    } else {
        Err(DecodeError::InvalidFormat)
    }
}

/// Serializes a quadrilateral's corners to one wire record: eight decimal
/// coordinates in the fixed order, comma-separated, sent with no
/// terminator. The velocity is not part of the record.
pub fn wire_record(r: &Rectangle) -> (out: Vec<u8>)
    requires
        r.wf(),
    ensures
        out@ == spec_wire_record(*r),
{
    let mut out: Vec<u8> = Vec::new();
    push_field(&mut out, r.top_left.x);
    out.push(COMMA);
    push_field(&mut out, r.top_left.y);
    out.push(COMMA);
    push_field(&mut out, r.bottom_left.x);
    out.push(COMMA);
    push_field(&mut out, r.bottom_left.y);
    out.push(COMMA);
    push_field(&mut out, r.bottom_right.x);
    out.push(COMMA);
    push_field(&mut out, r.bottom_right.y);
    out.push(COMMA);
    push_field(&mut out, r.top_right.x);
    out.push(COMMA);
    push_field(&mut out, r.top_right.y);
    proof {
        assert(out@ =~= spec_wire_record(*r));
    }
    out
}

} // verus!
