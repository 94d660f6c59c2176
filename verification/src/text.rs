//! Character-level text processing: line splitting, trimming, field
//! splitting and decimal parsing.  Every executable function is proved to
//! agree with a spec-level definition of the same operation.

use vstd::prelude::*;
use vstd::string::StrSliceExecFns;

verus! {

/// Horizontal whitespace inside a record line.
pub open spec fn is_space(c: char) -> bool {
    c == ' ' || c == '\t' || c == '\r'
}

/// ASCII decimal digit.
pub open spec fn is_digit(c: char) -> bool {
    48 <= c as int && c as int <= 57
}

/// Numeric value of a digit character.
pub open spec fn digit_val(c: char) -> int {
    c as int - 48
}

fn space_char(c: char) -> (b: bool)
    ensures
        b == is_space(c),
{
    c == ' ' || c == '\t' || c == '\r'
}

fn digit_char(c: char) -> (b: bool)
    ensures
        b == is_digit(c),
{
    let u = c as u32;
    48 <= u && u <= 57
}

/// The characters of a string slice as a vector.
pub fn chars_vec(s: &str) -> (v: Vec<char>)
    ensures
        v@ == s@,
{
    let n = s.unicode_len();
    let mut v: Vec<char> = Vec::new();
    let mut i: usize = 0;
    while i < n
        invariant
            i <= n,
            n == s@.len(),
            v@ =~= s@.subrange(0, i as int),
        decreases n - i,
    {
        let c = s.get_char(i);
        v.push(c);
        i += 1;
    }
    proof {
        assert(v@ =~= s@);
    }
    v
}

/// Index of the first newline in `s`, or `s.len()` if there is none.
pub open spec fn first_nl(s: Seq<char>) -> int
    decreases s.len(),
{
    if s.len() == 0 {
        0
    } else if s[0] == '\n' {
        0
    } else {
        1 + first_nl(s.drop_first())
    }
}

pub proof fn lemma_first_nl(s: Seq<char>)
    ensures
        0 <= first_nl(s) <= s.len(),
        forall|i: int| 0 <= i < first_nl(s) ==> s[i] != '\n',
        first_nl(s) < s.len() ==> s[first_nl(s)] == '\n',
    decreases s.len(),
{
    if s.len() > 0 && s[0] != '\n' {
        lemma_first_nl(s.drop_first());
        assert forall|i: int| 0 <= i < first_nl(s) implies s[i] != '\n' by {
            if i > 0 {
                assert(s.drop_first()[i - 1] != '\n');
            }
        }
    }
}

/// A line with a trailing carriage return removed.
pub open spec fn strip_cr(l: Seq<char>) -> Seq<char> {
    if l.len() > 0 && l[l.len() - 1] == '\r' {
        l.drop_last()
    } else {
        l
    }
}

/// The lines of a text, separated by `'\n'`, each stripped of a trailing
/// `'\r'`; an empty text has no lines.
pub open spec fn spec_lines(s: Seq<char>) -> Seq<Seq<char>>
    decreases s.len(),
    via spec_lines_dec
{
    if s.len() == 0 {
        Seq::empty()
    } else {
        let i = first_nl(s);
        if i == s.len() {
            seq![strip_cr(s)]
        } else {
            seq![strip_cr(s.take(i))] + spec_lines(s.skip(i + 1))
        }
    }
}

#[via_fn]
proof fn spec_lines_dec(s: Seq<char>) {
    lemma_first_nl(s);
}

/// Splitting off a first line without a newline inside it.
proof fn lemma_lines_step(s: Seq<char>, k: int)
    requires
        0 <= k <= s.len(),
        forall|i: int| 0 <= i < k ==> s[i] != '\n',
        k < s.len() ==> s[k] == '\n',
    ensures
        k < s.len() ==> spec_lines(s) == seq![strip_cr(s.take(k))] + spec_lines(s.skip(k + 1)),
        k == s.len() && k > 0 ==> spec_lines(s) == seq![strip_cr(s)],
{
    lemma_first_nl(s);
    if k < s.len() {
        assert(first_nl(s) == k) by {
            if first_nl(s) < k {
                assert(s[first_nl(s)] != '\n');
            }
            if first_nl(s) > k {
                assert(s[k] != '\n');
            }
        }
    } else if k > 0 {
        assert(first_nl(s) == k) by {
            if first_nl(s) < k {
                assert(s[first_nl(s)] != '\n');
            }
        }
    }
}

/// Splits a text into its lines.
pub fn split_lines(text: &Vec<char>) -> (r: Vec<Vec<char>>)
    ensures
        r.deep_view() == spec_lines(text@),
{
    let n: usize = text.len();
    let mut r: Vec<Vec<char>> = Vec::new();
    proof {
        assert(text@.skip(0) =~= text@);
        assert(r.deep_view() =~= Seq::<Seq<char>>::empty());
        assert(r.deep_view() + spec_lines(text@) =~= spec_lines(text@));
    }
    let mut start: usize = 0;
    let mut i: usize = 0;
    while i < n
        invariant
            start <= i <= n,
            n == text@.len(),
            forall|j: int| start <= j < i ==> text@[j] != '\n',
            r.deep_view() + spec_lines(text@.skip(start as int)) == spec_lines(text@),
        decreases n - i,
    {
        if text[i] == '\n' {
            let line = copy_strip_cr(text, start, i);
            let ghost r0 = r.deep_view();
            r.push(line);
            proof {
                let rest = text@.skip(start as int);
                assert forall|j: int| 0 <= j < i - start implies rest[j] != '\n' by {
                    assert(rest[j] == text@[start + j]);
                }
                assert(rest[i - start] == '\n');
                lemma_lines_step(rest, i - start);
                assert(rest.take(i - start) =~= text@.subrange(start as int, i as int));
                assert(rest.skip(i - start + 1) =~= text@.skip(i + 1));
                assert(r.deep_view() =~~= r0.push(line@));
                assert(r.deep_view() + spec_lines(text@.skip(i + 1)) =~= spec_lines(text@));
            }
            start = i + 1;
        }
        i += 1;
    }
    if start < n {
        let line = copy_strip_cr(text, start, n);
        let ghost r0 = r.deep_view();
        r.push(line);
        proof {
            let rest = text@.skip(start as int);
            assert forall|j: int| 0 <= j < rest.len() implies rest[j] != '\n' by {
                assert(rest[j] == text@[start + j]);
            }
            lemma_lines_step(rest, rest.len() as int);
            assert(rest =~= text@.subrange(start as int, n as int));
            assert(r.deep_view() =~~= r0.push(line@));
            assert(r.deep_view() =~= spec_lines(text@));
        }
    } else {
        proof {
            assert(text@.skip(start as int) =~= Seq::<char>::empty());
            assert(r.deep_view() =~= r.deep_view() + spec_lines(text@.skip(start as int)));
        }
    }
    r
}

/// Copies `text[from..to]`, dropping one trailing carriage return.
fn copy_strip_cr(text: &Vec<char>, from: usize, to: usize) -> (line: Vec<char>)
    requires
        from <= to <= text@.len(),
    ensures
        line@ == strip_cr(text@.subrange(from as int, to as int)),
{
    let mut to = to;
    if to > from && text[to - 1] == '\r' {
        proof {
            let sub = text@.subrange(from as int, to as int);
            assert(sub[sub.len() - 1] == '\r');
            assert(strip_cr(sub) =~= text@.subrange(from as int, to - 1));
        }
        to = to - 1;
    } else {
        proof {
            let sub = text@.subrange(from as int, to as int);
            assert(strip_cr(sub) =~= sub);
        }
    }
    let mut line: Vec<char> = Vec::new();
    let mut j: usize = from;
    while j < to
        invariant
            from <= j <= to <= text@.len(),
            line@ =~= text@.subrange(from as int, j as int),
        decreases to - j,
    {
        line.push(text[j]);
        j += 1;
    }
    proof {
        assert(line@ =~= text@.subrange(from as int, to as int));
    }
    line
}

/// Index of the first whitespace character in `s`, or `s.len()`.
pub open spec fn first_space(s: Seq<char>) -> int
    decreases s.len(),
{
    if s.len() == 0 {
        0
    } else if is_space(s[0]) {
        0
    } else {
        1 + first_space(s.drop_first())
    }
}

pub proof fn lemma_first_space(s: Seq<char>)
    ensures
        0 <= first_space(s) <= s.len(),
        forall|i: int| 0 <= i < first_space(s) ==> !is_space(s[i]),
        first_space(s) < s.len() ==> is_space(s[first_space(s)]),
    decreases s.len(),
{
    if s.len() > 0 && !is_space(s[0]) {
        lemma_first_space(s.drop_first());
        assert forall|i: int| 0 <= i < first_space(s) implies !is_space(s[i]) by {
            if i > 0 {
                assert(!is_space(s.drop_first()[i - 1]));
            }
        }
    }
}

/// The whitespace-separated fields of a line, in order; separators of any
/// length are collapsed and no field is empty.
pub open spec fn spec_fields(s: Seq<char>) -> Seq<Seq<char>>
    decreases s.len(),
    via spec_fields_dec
{
    if s.len() == 0 {
        Seq::empty()
    } else if is_space(s[0]) {
        spec_fields(s.drop_first())
    } else {
        let k = first_space(s);
        if k == s.len() {
            seq![s]
        } else {
            seq![s.take(k)] + spec_fields(s.skip(k))
        }
    }
}

#[via_fn]
proof fn spec_fields_dec(s: Seq<char>) {
    lemma_first_space(s);
}

/// Dropping one leading space keeps the fields.
proof fn lemma_fields_space(s: Seq<char>)
    requires
        s.len() > 0,
        is_space(s[0]),
    ensures
        spec_fields(s) == spec_fields(s.drop_first()),
{
}

/// Splitting off a leading field of `k` non-space characters.
proof fn lemma_fields_step(s: Seq<char>, k: int)
    requires
        0 < k <= s.len(),
        forall|i: int| 0 <= i < k ==> !is_space(s[i]),
        k < s.len() ==> is_space(s[k]),
    ensures
        k < s.len() ==> spec_fields(s) == seq![s.take(k)] + spec_fields(s.skip(k)),
        k == s.len() ==> spec_fields(s) == seq![s],
{
    lemma_first_space(s);
    assert(first_space(s) == k) by {
        if first_space(s) < k {
            assert(!is_space(s[first_space(s)]));
        }
        if first_space(s) > k && k < s.len() {
            assert(!is_space(s[k]));
        }
    }
}

/// Splits a line into whitespace-separated fields.
pub fn split_fields(line: &Vec<char>) -> (r: Vec<Vec<char>>)
    ensures
        r.deep_view() == spec_fields(line@),
{
    let n: usize = line.len();
    let mut r: Vec<Vec<char>> = Vec::new();
    proof {
        assert(line@.skip(0) =~= line@);
        assert(r.deep_view() =~= Seq::<Seq<char>>::empty());
        assert(r.deep_view() + spec_fields(line@) =~= spec_fields(line@));
    }
    let mut i: usize = 0;
    while i < n
        invariant
            i <= n,
            n == line@.len(),
            r.deep_view() + spec_fields(line@.skip(i as int)) == spec_fields(line@),
        decreases n - i,
    {
        if space_char(line[i]) {
            proof {
                let rest = line@.skip(i as int);
                lemma_fields_space(rest);
                assert(rest.drop_first() =~= line@.skip(i + 1));
            }
            i += 1;
        } else {
            let start = i;
            let mut tok: Vec<char> = Vec::new();
            while i < n && !space_char(line[i])
                invariant
                    start <= i <= n,
                    n == line@.len(),
                    forall|j: int| start <= j < i ==> !is_space(line@[j]),
                    tok@ =~= line@.subrange(start as int, i as int),
                decreases n - i,
            {
                tok.push(line[i]);
                i += 1;
            }
            let ghost r0 = r.deep_view();
            r.push(tok);
            proof {
                assert(r.deep_view() =~~= r0.push(tok@));
                let rest = line@.skip(start as int);
                assert forall|j: int| 0 <= j < i - start implies !is_space(rest[j]) by {
                    assert(rest[j] == line@[start + j]);
                }
                if i < n {
                    assert(is_space(rest[i - start]));
                }
                lemma_fields_step(rest, i - start);
                assert(rest.take(i - start) =~= tok@);
                assert(rest.skip(i - start) =~= line@.skip(i as int));
                if i < n {
                    assert(r.deep_view() + spec_fields(line@.skip(i as int)) =~= spec_fields(
                        line@,
                    ));
                } else {
                    assert(line@.skip(i as int) =~= Seq::<char>::empty());
                    assert(r.deep_view() + spec_fields(line@.skip(i as int)) =~= spec_fields(
                        line@,
                    ));
                }
            }
        }
    }
    proof {
        assert(line@.skip(n as int) =~= Seq::<char>::empty());
        assert(r.deep_view() =~= r.deep_view() + spec_fields(line@.skip(n as int)));
    }
    r
}

/// Value of a digit string, most significant digit first.
pub open spec fn digits_val(s: Seq<char>) -> int
    decreases s.len(),
{
    if s.len() == 0 {
        0
    } else {
        digits_val(s.drop_last()) * 10 + digit_val(s.last())
    }
}

/// Every character is a decimal digit.
pub open spec fn all_digits(s: Seq<char>) -> bool {
    forall|i: int| 0 <= i < s.len() ==> is_digit(#[trigger] s[i])
}

pub proof fn lemma_digits_val_nonneg(s: Seq<char>)
    requires
        all_digits(s),
    ensures
        digits_val(s) >= 0,
    decreases s.len(),
{
    if s.len() > 0 {
        lemma_digits_val_nonneg(s.drop_last());
    }
}

/// The value of a digit-string prefix never exceeds the whole value.
pub proof fn lemma_digits_val_prefix(s: Seq<char>, k: int)
    requires
        all_digits(s),
        0 <= k <= s.len(),
    ensures
        digits_val(s.take(k)) <= digits_val(s),
    decreases s.len(),
{
    lemma_digits_val_nonneg(s.take(k));
    if k < s.len() {
        assert(s.take(k) =~= s.drop_last().take(k));
        lemma_digits_val_prefix(s.drop_last(), k);
        lemma_digits_val_nonneg(s.drop_last());
        assert(digits_val(s) == digits_val(s.drop_last()) * 10 + digit_val(s.last()));
    } else {
        assert(s.take(k) =~= s);
    }
}

/// A non-empty all-digit string whose value fits in a `u64`.
pub open spec fn spec_parse_u64(s: Seq<char>) -> Option<u64> {
    if s.len() > 0 && all_digits(s) && digits_val(s) <= u64::MAX {
        Option::Some(digits_val(s) as u64)
    } else {
        Option::None
    }
}

/// Parses an unsigned decimal number.
pub fn parse_u64(tok: &Vec<char>) -> (r: Option<u64>)
    ensures
        r == spec_parse_u64(tok@),
{
    let n: usize = tok.len();
    if n == 0 {
        return Option::None;
    }
    let mut val: u64 = 0;
    let mut i: usize = 0;
    while i < n
        invariant
            i <= n,
            n == tok@.len(),
            forall|j: int| 0 <= j < i ==> is_digit(#[trigger] tok@[j]),
            val == digits_val(tok@.take(i as int)),
        decreases n - i,
    {
        let c = tok[i];
        if !digit_char(c) {
            return Option::None;
        }
        let d: u64 = (c as u32 as u64) - 48;
        if val > (u64::MAX - d) / 10 {
            proof {
                assert(tok@.take(i + 1) =~= tok@.take(i as int).push(c));
                assert(digits_val(tok@.take(i + 1)) == val * 10 + d) by {
                    assert(tok@.take(i + 1).drop_last() =~= tok@.take(i as int));
                }
                assert(digits_val(tok@.take(i + 1)) > u64::MAX);
                if all_digits(tok@) {
                    lemma_digits_val_prefix(tok@, i + 1);
                }
            }
            return Option::None;
        }
        val = val * 10 + d;
        proof {
            assert(tok@.take(i + 1) =~= tok@.take(i as int).push(c));
            assert(digits_val(tok@.take(i + 1)) == digits_val(tok@.take(i as int)) * 10 + digit_val(
                c,
            )) by {
                assert(tok@.take(i + 1).drop_last() =~= tok@.take(i as int));
            }
        }
        i += 1;
    }
    proof {
        assert(tok@.take(n as int) =~= tok@);
    }
    Option::Some(val)
}

/// A non-empty all-digit string whose value fits in a `u32`.
pub open spec fn spec_parse_u32(s: Seq<char>) -> Option<u32> {
    if s.len() > 0 && all_digits(s) && digits_val(s) <= u32::MAX {
        Option::Some(digits_val(s) as u32)
    } else {
        Option::None
    }
}

/// Parses an unsigned decimal number that must fit in 32 bits.
pub fn parse_u32(tok: &Vec<char>) -> (r: Option<u32>)
    ensures
        r == spec_parse_u32(tok@),
{
    match parse_u64(tok) {
        Option::Some(v) => {
            proof {
                lemma_digits_val_nonneg(tok@);
            }
            if v <= 0xffff_ffff {
                Option::Some(v as u32)
            } else {
                Option::None
            }
        },
        Option::None => {
            proof {
                if tok@.len() > 0 && all_digits(tok@) {
                    lemma_digits_val_nonneg(tok@);
                }
            }
            Option::None
        },
    }
}

/// A non-empty all-digit string whose value fits in a `usize`.
pub open spec fn spec_parse_usize(s: Seq<char>) -> Option<usize> {
    if s.len() > 0 && all_digits(s) && digits_val(s) <= usize::MAX {
        Option::Some(digits_val(s) as usize)
    } else {
        Option::None
    }
}

/// Parses an unsigned decimal number that must fit in a `usize`.
pub fn parse_usize(tok: &Vec<char>) -> (r: Option<usize>)
    ensures
        r == spec_parse_usize(tok@),
{
    let n: usize = tok.len();
    if n == 0 {
        return Option::None;
    }
    let mut val: usize = 0;
    let mut i: usize = 0;
    while i < n
        invariant
            i <= n,
            n == tok@.len(),
            forall|j: int| 0 <= j < i ==> is_digit(#[trigger] tok@[j]),
            val == digits_val(tok@.take(i as int)),
        decreases n - i,
    {
        let c = tok[i];
        if !digit_char(c) {
            return Option::None;
        }
        let d: usize = ((c as u32) as usize) - 48;
        if val > (usize::MAX - d) / 10 {
            proof {
                assert(tok@.take(i + 1) =~= tok@.take(i as int).push(c));
                assert(digits_val(tok@.take(i + 1)) == val * 10 + d) by {
                    assert(tok@.take(i + 1).drop_last() =~= tok@.take(i as int));
                }
                assert(digits_val(tok@.take(i + 1)) > usize::MAX);
                if all_digits(tok@) {
                    lemma_digits_val_prefix(tok@, i + 1);
                }
            }
            return Option::None;
        }
        val = val * 10 + d;
        proof {
            assert(tok@.take(i + 1) =~= tok@.take(i as int).push(c));
            assert(digits_val(tok@.take(i + 1)) == digits_val(tok@.take(i as int)) * 10 + digit_val(
                c,
            )) by {
                assert(tok@.take(i + 1).drop_last() =~= tok@.take(i as int));
            }
        }
        i += 1;
    }
    proof {
        assert(tok@.take(n as int) =~= tok@);
    }
    Option::Some(val)
}

/// Every field produced by `spec_fields` is non-empty.
pub proof fn lemma_fields_nonempty(s: Seq<char>)
    ensures
        forall|i: int| 0 <= i < spec_fields(s).len() ==> #[trigger] spec_fields(s)[i].len() > 0,
    decreases s.len(),
{
    lemma_first_space(s);
    if s.len() == 0 {
    } else if is_space(s[0]) {
        lemma_fields_nonempty(s.drop_first());
        assert forall|i: int|
            0 <= i < spec_fields(s).len() implies #[trigger] spec_fields(s)[i].len() > 0 by {
            assert(spec_fields(s)[i] == spec_fields(s.drop_first())[i]);
        }
    } else {
        let k = first_space(s);
        assert(k >= 1);
        if k < s.len() {
            lemma_fields_nonempty(s.skip(k));
            assert forall|i: int|
                0 <= i < spec_fields(s).len() implies #[trigger] spec_fields(s)[i].len() > 0 by {
                if i == 0 {
                    assert(spec_fields(s)[0] == s.take(k));
                } else {
                    assert(spec_fields(s)[i] == spec_fields(s.skip(k))[i - 1]);
                }
            }
        } else {
            assert(spec_fields(s) == seq![s]);
            assert forall|i: int|
                0 <= i < spec_fields(s).len() implies #[trigger] spec_fields(s)[i].len() > 0 by {
                assert(spec_fields(s)[i] == s);
            }
        }
    }
}

/// Copies `v[from..to]`.
fn copy_range(v: &Vec<char>, from: usize, to: usize) -> (r: Vec<char>)
    requires
        from <= to <= v@.len(),
    ensures
        r@ == v@.subrange(from as int, to as int),
{
    let mut r: Vec<char> = Vec::new();
    let mut j: usize = from;
    while j < to
        invariant
            from <= j <= to <= v@.len(),
            r@ =~= v@.subrange(from as int, j as int),
        decreases to - j,
    {
        r.push(v[j]);
        j += 1;
    }
    proof {
        assert(r@ =~= v@.subrange(from as int, to as int));
    }
    r
}

/// Index of the first dot in `s`, or `s.len()`.
pub open spec fn first_dot(s: Seq<char>) -> int
    decreases s.len(),
{
    if s.len() == 0 {
        0
    } else if s[0] == '.' {
        0
    } else {
        1 + first_dot(s.drop_first())
    }
}

pub proof fn lemma_first_dot(s: Seq<char>)
    ensures
        0 <= first_dot(s) <= s.len(),
        forall|i: int| 0 <= i < first_dot(s) ==> s[i] != '.',
        first_dot(s) < s.len() ==> s[first_dot(s)] == '.',
    decreases s.len(),
{
    if s.len() > 0 && s[0] != '.' {
        lemma_first_dot(s.drop_first());
        assert forall|i: int| 0 <= i < first_dot(s) implies s[i] != '.' by {
            if i > 0 {
                assert(s.drop_first()[i - 1] != '.');
            }
        }
    }
}

/// Powers of ten.
pub open spec fn pow10(n: nat) -> int
    decreases n,
{
    if n == 0 {
        1
    } else {
        10 * pow10((n - 1) as nat)
    }
}

/// A digit string of length `n` is worth less than `10^n`.
pub proof fn lemma_digits_val_lt_pow(s: Seq<char>)
    requires
        all_digits(s),
    ensures
        0 <= digits_val(s) < pow10(s.len()),
    decreases s.len(),
{
    if s.len() > 0 {
        lemma_digits_val_lt_pow(s.drop_last());
    }
}

/// A run of `'0'` characters.
pub open spec fn zeros(n: nat) -> Seq<char> {
    Seq::new(n, |i: int| '0')
}

/// The first seven fraction digits, padded with zeros on the right.
pub open spec fn pad7(f: Seq<char>) -> Seq<char> {
    if f.len() >= 7 {
        f.take(7)
    } else {
        f + zeros((7 - f.len()) as nat)
    }
}

/// Value of a fraction string in units of `1e-7`, extra digits truncated.
pub open spec fn frac_val7(f: Seq<char>) -> int {
    digits_val(pad7(f))
}

/// A decimal number with an optional sign and at most one dot, as a
/// fixed-point count of `1e-7` units, fractional digits beyond the seventh
/// discarded.  The integer part may not exceed `922_337_202`, which keeps
/// every representable value inside `i64`.
pub open spec fn spec_parse_coord(s: Seq<char>) -> Option<i64> {
    if s.len() == 0 {
        Option::None
    } else {
        let neg = s[0] == '-';
        let body = if s[0] == '-' || s[0] == '+' {
            s.drop_first()
        } else {
            s
        };
        let d = first_dot(body);
        let ip = body.take(d);
        let fp = if d == body.len() {
            Seq::<char>::empty()
        } else {
            body.skip(d + 1)
        };
        if (ip.len() > 0 || fp.len() > 0) && all_digits(ip) && all_digits(fp) && digits_val(ip)
            <= 922_337_202 {
            let m = digits_val(ip) * 10_000_000 + frac_val7(fp);
            Option::Some(
                if neg {
                    (-m) as i64
                } else {
                    m as i64
                },
            )
        } else {
            Option::None
        }
    }
}

/// All digits and zero padding keep `all_digits`; the padded value stays
/// under `10^7`.
proof fn lemma_frac_val7_bound(f: Seq<char>)
    requires
        all_digits(f),
    ensures
        0 <= frac_val7(f) < 10_000_000,
{
    assert(all_digits(pad7(f))) by {
        if f.len() >= 7 {
        } else {
            assert forall|i: int| 0 <= i < pad7(f).len() implies is_digit(#[trigger] pad7(f)[i]) by {
                if i < f.len() {
                    assert(pad7(f)[i] == f[i]);
                } else {
                    assert(pad7(f)[i] == '0');
                }
            }
        }
    }
    lemma_digits_val_lt_pow(pad7(f));
    assert(pad7(f).len() == 7);
    assert(pow10(7) == 10_000_000) by {
        assert(pow10(0) == 1);
        assert(pow10(1) == 10);
        assert(pow10(2) == 100);
        assert(pow10(3) == 1000);
        assert(pow10(4) == 10000);
        assert(pow10(5) == 100000);
        assert(pow10(6) == 1000000);
        assert(pow10(7) == 10000000);
    }
}

/// Parses a fraction string: all digits, value in `1e-7` units.
#[verifier::rlimit(60)]
fn parse_frac7(fp: &Vec<char>) -> (r: Option<u64>)
    ensures
        match r {
            Option::Some(fv) => all_digits(fp@) && fv == frac_val7(fp@) && fv < 10_000_000,
            Option::None => !all_digits(fp@),
        },
{
    let flen: usize = fp.len();
    let mut fv: u64 = 0;
    let mut cnt: usize = 0;
    let mut i: usize = 0;
    while i < flen
        invariant
            i <= flen == fp@.len(),
            cnt == if i < 7 {
                i as int
            } else {
                7
            },
            forall|j: int| 0 <= j < i ==> is_digit(#[trigger] fp@[j]),
            fv == digits_val(fp@.take(cnt as int)),
            fv < 10_000_000,
        decreases flen - i,
    {
        let c = fp[i];
        if !digit_char(c) {
            return Option::None;
        }
        if cnt < 7 {
            let dv: u64 = (c as u32 as u64) - 48;
            proof {
                lemma_digits_val_lt_pow(fp@.take(cnt as int));
                assert(pow10(cnt as nat) <= 1000000) by {
                    assert(cnt <= 6);
                    assert(pow10(0) == 1);
                    assert(pow10(1) == 10);
                    assert(pow10(2) == 100);
                    assert(pow10(3) == 1000);
                    assert(pow10(4) == 10000);
                    assert(pow10(5) == 100000);
                    assert(pow10(6) == 1000000);
                }
                assert(fv < 1000000);
                assert(fp@.take(cnt + 1).drop_last() =~= fp@.take(cnt as int));
                assert(fp@.take(cnt + 1).last() == fp@[cnt as int]);
            }
            assert(fp@[cnt as int] == c);
            fv = fv * 10 + dv;
            cnt += 1;
        }
        i += 1;
        proof {
            if i < 7 {
                assert(cnt == i);
            }
        }
    }
    let ghost m: int = if flen < 7 {
        flen as int
    } else {
        7
    };
    proof {
        assert(cnt == m);
        assert(fp@.take(m) + zeros(0) =~= fp@.take(m));
    }
    while cnt < 7
        invariant
            m <= cnt <= 7,
            flen == fp@.len(),
            m == if flen < 7 {
                flen as int
            } else {
                7
            },
            forall|j: int| 0 <= j < flen ==> is_digit(#[trigger] fp@[j]),
            fv == digits_val(fp@.take(m) + zeros((cnt - m) as nat)),
            fv < 10_000_000,
        decreases 7 - cnt,
    {
        proof {
            let cur = fp@.take(m) + zeros((cnt - m) as nat);
            let next = fp@.take(m) + zeros((cnt + 1 - m) as nat);
            assert(next.drop_last() =~= cur);
            assert(next.last() == '0');
            assert(digits_val(next) == digits_val(cur) * 10);
            assert(all_digits(cur)) by {
                assert forall|j: int| 0 <= j < cur.len() implies is_digit(#[trigger] cur[j]) by {
                    if j < m {
                        assert(cur[j] == fp@[j]);
                    } else {
                        assert(cur[j] == '0');
                    }
                }
            }
            lemma_digits_val_lt_pow(cur);
            assert(cur.len() <= 6);
            assert(pow10(cur.len()) <= 1000000) by {
                assert(pow10(0) == 1);
                assert(pow10(1) == 10);
                assert(pow10(2) == 100);
                assert(pow10(3) == 1000);
                assert(pow10(4) == 10000);
                assert(pow10(5) == 100000);
                assert(pow10(6) == 1000000);
            }
        }
        fv = fv * 10;
        cnt += 1;
    }
    proof {
        assert(fp@.take(m) + zeros((7 - m) as nat) =~= pad7(fp@));
        assert(fv == frac_val7(fp@));
    }
    Option::Some(fv)
}

/// Parses a signed fixed-point decimal into `1e-7` units.
#[verifier::rlimit(60)]
pub fn parse_coord(tok: &Vec<char>) -> (r: Option<i64>)
    ensures
        r == spec_parse_coord(tok@),
{
    let n: usize = tok.len();
    if n == 0 {
        return Option::None;
    }
    let c0 = tok[0];
    let neg = c0 == '-';
    let from: usize = if c0 == '-' || c0 == '+' {
        1
    } else {
        0
    };
    let body = copy_range(tok, from, n);
    proof {
        assert(body@ =~= if tok@[0] == '-' || tok@[0] == '+' {
            tok@.drop_first()
        } else {
            tok@
        });
    }
    let blen: usize = body.len();
    let mut d: usize = 0;
    while d < blen && body[d] != '.'
        invariant
            d <= blen == body@.len(),
            forall|j: int| 0 <= j < d ==> body@[j] != '.',
        decreases blen - d,
    {
        d += 1;
    }
    proof {
        lemma_first_dot(body@);
        assert(first_dot(body@) == d) by {
            if first_dot(body@) < d {
                assert(body@[first_dot(body@)] != '.');
            }
            if first_dot(body@) > d && d < blen {
                assert(body@[d as int] != '.');
            }
        }
    }
    let ip = copy_range(&body, 0, d);
    let fp = if d == blen {
        Vec::<char>::new()
    } else {
        copy_range(&body, d + 1, blen)
    };
    proof {
        assert(ip@ =~= body@.take(d as int));
        if d == blen {
            assert(fp@ =~= Seq::<char>::empty());
        } else {
            assert(fp@ =~= body@.skip(d + 1));
        }
    }
    if ip.len() == 0 && fp.len() == 0 {
        return Option::None;
    }
    let ipv: u64 = if ip.len() == 0 {
        0u64
    } else {
        match parse_u64(&ip) {
            Option::Some(v) => {
                proof {
                    lemma_digits_val_nonneg(ip@);
                }
                if v > 922_337_202 {
                    return Option::None;
                }
                v
            },
            Option::None => {
                proof {
                    if all_digits(ip@) {
                        lemma_digits_val_nonneg(ip@);
                    }
                }
                return Option::None;
            },
        }
    };
    let fv: u64 = match parse_frac7(&fp) {
        Option::Some(fv) => fv,
        Option::None => {
            return Option::None;
        },
    };
    let m64: u64 = ipv * 10_000_000 + fv;
    proof {
        assert(digits_val(ip@) == ipv);
        assert(frac_val7(fp@) == fv);
        assert(m64 == digits_val(ip@) * 10_000_000 + frac_val7(fp@));
    }
    if neg {
        Option::Some(-(m64 as i64))
    } else {
        Option::Some(m64 as i64)
    }
}

/// Relies on std's `String::push`: appends the given character to the end
/// of the string.
#[verifier::external_body]
fn push_char(s: &mut String, c: char)
    ensures
        final(s)@ == old(s)@.push(c),
{
    s.push(c);
}

/// A `String` with exactly the given characters.
pub fn string_of(chars: &Vec<char>) -> (s: String)
    ensures
        s@ == chars@,
{
    let mut s = String::new();
    let n: usize = chars.len();
    let mut i: usize = 0;
    while i < n
        invariant
            i <= n,
            n == chars@.len(),
            s@ =~= chars@.subrange(0, i as int),
        decreases n - i,
    {
        push_char(&mut s, chars[i]);
        i += 1;
    }
    proof {
        assert(s@ =~= chars@);
    }
    s
}

} // verus!
