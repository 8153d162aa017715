use vstd::prelude::*;

verus! {

// A sample, counted in thousandths, is written in ASCII as an optional '-',
// the whole part in decimal, a '.', and exactly three decimal places:
// 1500 is "1.500", -5 is "-0.005".

/// The decimal digits of `n`, most significant first, without leading zeros.
pub open spec fn digits(n: nat) -> Seq<u8>
    decreases n,
{
    if n < 10 {
        seq![(48 + n) as u8]
    } else {
        digits(n / 10).push((48 + n % 10) as u8)
    }
}

/// An ASCII decimal digit.
pub open spec fn is_digit(c: u8) -> bool {
    48 <= c <= 57
}

/// The number that a run of decimal digits spells.
pub open spec fn value_of(s: Seq<u8>) -> nat
    decreases s.len(),
{
    if s.len() == 0 {
        0
    } else {
        value_of(s.drop_last()) * 10 + (s.last() - 48) as nat
    }
}

/// The magnitude of `v`.
pub open spec fn abs(v: int) -> nat {
    if v < 0 { (-v) as nat } else { v as nat }
}

/// The text of one sample.
pub open spec fn fmt_sample(v: int) -> Seq<u8> {
    let a = abs(v);
    let sign = if v < 0 { seq![45u8] } else { Seq::<u8>::empty() };
    sign + digits(a / 1000) + seq![
        46u8,
        (48 + (a / 100) % 10) as u8,
        (48 + (a / 10) % 10) as u8,
        (48 + a % 10) as u8,
    ]
}

/// The longest whole part a sample can have.
pub const MAX_WHOLE_DIGITS: usize = 7;

/// A field without its leading '-', if it has one.
pub open spec fn unsigned_part(s: Seq<u8>) -> Seq<u8> {
    if s.len() > 0 && s[0] == 45u8 {
        s.skip(1)
    } else {
        s
    }
}

/// Digits everywhere but at the point, four places from the end.
pub open spec fn digits_around_point(body: Seq<u8>) -> bool {
    forall|i: int| 0 <= i < body.len() && i != body.len() - 4 ==> is_digit(#[trigger] body[i])
}

/// The sample that a field of text holds, if it is well formed and in range.
pub open spec fn parse_field(s: Seq<u8>) -> Option<int> {
    let neg = s.len() > 0 && s[0] == 45u8;
    let body = unsigned_part(s);
    let w = body.len() - 4;
    if body.len() >= 5 && w <= MAX_WHOLE_DIGITS && body[w] == 46u8 && digits_around_point(body) {
        let m = value_of(body.take(w)) * 1000 + value_of(body.skip(w + 1));
        let v: int = if neg { -(m as int) } else { m as int };
        if i32::MIN <= v <= i32::MAX { Some(v) } else { None }
    } else {
        None
    }
}

proof fn lemma_digits(n: nat)
    ensures
        digits(n).len() >= 1,
        forall|i: int| 0 <= i < digits(n).len() ==> is_digit(#[trigger] digits(n)[i]),
        value_of(digits(n)) == n,
    decreases n,
{
    assert(value_of(Seq::<u8>::empty()) == 0);
    if n >= 10 {
        lemma_digits(n / 10);
        let d = digits(n);
        assert(d.drop_last() =~= digits(n / 10));
        assert(d.last() == (48 + n % 10) as u8);
        assert(value_of(d) == value_of(d.drop_last()) * 10 + (d.last() - 48) as nat);
        assert(n == (n / 10) * 10 + n % 10);
    } else {
        let d = seq![(48 + n) as u8];
        assert(d.drop_last() =~= Seq::<u8>::empty());
        assert(value_of(d) == value_of(d.drop_last()) * 10 + (d.last() - 48) as nat);
    }
}

proof fn lemma_digits_len(n: nat, k: nat)
    requires
        k >= 1,
        n < pow10(k),
    ensures
        digits(n).len() <= k,
    decreases n,
{
    if n >= 10 {
        assert(pow10(k) == 10 * pow10((k - 1) as nat));
        assert(n / 10 < pow10((k - 1) as nat));
        if k == 1 {
            assert(pow10(0) == 1);
        }
        lemma_digits_len(n / 10, (k - 1) as nat);
        assert(digits(n).len() == digits(n / 10).len() + 1);
    }
}

proof fn lemma_pow10_values()
    ensures
        pow10(0) == 1,
        pow10(1) == 10,
        pow10(2) == 100,
        pow10(3) == 1000,
        pow10(7) == 10000000,
{
    assert(pow10(0) == 1);
    assert(pow10(1) == 10);
    assert(pow10(2) == 100);
    assert(pow10(3) == 1000);
    assert(pow10(4) == 10000);
    assert(pow10(5) == 100000);
    assert(pow10(6) == 1000000);
    assert(pow10(7) == 10000000);
}

proof fn lemma_three(a: u8, b: u8, c: u8)
    requires
        is_digit(a),
        is_digit(b),
        is_digit(c),
    ensures
        value_of(seq![a, b, c]) == (a - 48) * 100 + (b - 48) * 10 + (c - 48),
{
    let s3 = seq![a, b, c];
    let s2 = seq![a, b];
    let s1 = seq![a];
    assert(s3.drop_last() =~= s2);
    assert(s2.drop_last() =~= s1);
    assert(s1.drop_last() =~= Seq::<u8>::empty());
    assert(value_of(Seq::<u8>::empty()) == 0);
    assert(value_of(s1) == (a - 48) as nat);
    assert(value_of(s2) == value_of(s1) * 10 + (b - 48) as nat);
    assert(value_of(s3) == value_of(s2) * 10 + (c - 48) as nat);
}

/// The text of a sample's magnitude `a`, without sign.
pub open spec fn fmt_magnitude(a: nat) -> Seq<u8> {
    digits(a / 1000) + seq![
        46u8,
        (48 + (a / 100) % 10) as u8,
        (48 + (a / 10) % 10) as u8,
        (48 + a % 10) as u8,
    ]
}

proof fn lemma_magnitude(a: nat)
    requires
        a <= 0x8000_0000,
    ensures
        ({
            let body = fmt_magnitude(a);
            let w = body.len() - 4;
            &&& body.len() >= 5
            &&& w <= MAX_WHOLE_DIGITS
            &&& body[w] == 46u8
            &&& body[0] != 45u8
            &&& digits_around_point(body)
            &&& value_of(body.take(w)) * 1000 + value_of(body.skip(w + 1)) == a
        }),
{
    let d = digits(a / 1000);
    lemma_digits(a / 1000);
    let f0 = (48 + (a / 100) % 10) as u8;
    let f1 = (48 + (a / 10) % 10) as u8;
    let f2 = (48 + a % 10) as u8;
    let body = fmt_magnitude(a);
    let w = body.len() - 4;
    assert(w == d.len());
    assert(body.take(w) =~= d);
    assert(body.skip(w + 1) =~= seq![f0, f1, f2]);
    lemma_three(f0, f1, f2);
    lemma_pow10_values();
    lemma_digits_len(a / 1000, 7);
    assert(body[0] == d[0]);
    assert forall|i: int| 0 <= i < body.len() && i != w implies is_digit(#[trigger] body[i]) by {
        if i < w {
            assert(body[i] == d[i]);
        }
    }
    lemma_decimal_split(a);
}

proof fn lemma_decimal_split(a: nat)
    ensures
        a == (a / 1000) * 1000 + ((a / 100) % 10) * 100 + ((a / 10) % 10) * 10 + a % 10,
{
    assert(a == (a / 1000) * 1000 + ((a / 100) % 10) * 100 + ((a / 10) % 10) * 10 + a % 10)
        by (nonlinear_arith);
}

/// Reading back the text of a sample gives the sample.
pub proof fn lemma_sample_round_trip(v: i32)
    ensures
        parse_field(fmt_sample(v as int)) == Some(v as int),
{
    let a = abs(v as int);
    let s = fmt_sample(v as int);
    let body = fmt_magnitude(a);
    lemma_magnitude(a);
    if v < 0 {
        assert(s =~= seq![45u8] + body);
        assert(s.skip(1) =~= body);
    } else {
        assert(s =~= body);
    }
}

fn push_digits(n: u32, out: &mut Vec<u8>)
    ensures
        final(out)@ == old(out)@ + digits(n as nat),
    decreases n,
{
    if n >= 10 {
        push_digits(n / 10, out);
    }
    out.push((48 + n % 10) as u8);
    assert(final(out)@ =~= old(out)@ + digits(n as nat));
}

/// Appends the text of `v` to `out`.
pub fn push_sample(v: i32, out: &mut Vec<u8>)
    ensures
        final(out)@ == old(out)@ + fmt_sample(v as int),
{
    let a: u32 = if v < 0 { (-(v as i64)) as u32 } else { v as u32 };
    let ghost start = out@;
    if v < 0 {
        out.push(45u8);
    }
    push_digits(a / 1000, out);
    out.push(46u8);
    out.push((48 + (a / 100) % 10) as u8);
    out.push((48 + (a / 10) % 10) as u8);
    out.push((48 + a % 10) as u8);
    assert(final(out)@ =~= start + fmt_sample(v as int));
}

/// The sample a field of text holds: `None` unless the field is written as
/// `push_sample` writes (leading zeros aside) and the value fits an `i32`.
pub fn parse_sample(s: &[u8]) -> (r: Option<i32>)
    ensures
        r matches Some(v) ==> parse_field(s@) == Some(v as int),
        r is None ==> parse_field(s@) is None,
{
    let neg = s.len() > 0 && s[0] == 45u8;
    let start: usize = if neg { 1 } else { 0 };
    let ghost body = unsigned_part(s@);
    assert(body =~= s@.subrange(start as int, s@.len() as int));
    let blen = s.len() - start;
    if blen < 5 || blen - 4 > MAX_WHOLE_DIGITS {
        return None;
    }
    let w = blen - 4;
    if s[start + w] != 46u8 {
        return None;
    }
    proof {
        lemma_pow10_values();
    }
    let mut whole: u64 = 0;
    let mut i: usize = 0;
    while i < w
        invariant
            start <= s@.len(),
            start == (if neg { 1int } else { 0int }),
            neg == (s@.len() > 0 && s@[0] == 45u8),
            body == unsigned_part(s@),
            pow10(7) == 10000000,
            s@[start + w] == 46u8,
            i <= w,
            w <= MAX_WHOLE_DIGITS,
            w + 4 == blen,
            blen == s@.len() - start,
            body =~= s@.subrange(start as int, s@.len() as int),
            forall|k: int| 0 <= k < i ==> is_digit(#[trigger] body[k]),
            whole == value_of(body.take(i as int)),
            whole < pow10(i as nat),
            pow10(i as nat) <= 10000000,
        decreases w - i,
    {
        let c = s[start + i];
        assert(c == body[i as int]);
        if c < 48 || c > 57 {
            assert(!is_digit(body[i as int]));
            assert(!digits_around_point(body));
            return None;
        }
        assert(body.take(i + 1).drop_last() =~= body.take(i as int));
        proof {
            lemma_pow10_step(i as nat, whole as nat, (c - 48) as nat);
            lemma_pow10_mono((i + 1) as nat, 7);
        }
        whole = whole * 10 + (c - 48) as u64;
        i = i + 1;
    }
    assert(body.take(i as int) =~= body.take(w as int));
    let mut frac: u64 = 0;
    let mut j: usize = w + 1;
    assert(body.subrange(w + 1, w + 1) =~= Seq::<u8>::empty());
    while j < blen
        invariant
            start <= s@.len(),
            start == (if neg { 1int } else { 0int }),
            neg == (s@.len() > 0 && s@[0] == 45u8),
            body == unsigned_part(s@),
            pow10(3) == 1000,
            s@[start + w] == 46u8,
            whole == value_of(body.take(w as int)),
            whole < 10000000,
            w + 1 <= j <= blen,
            w <= MAX_WHOLE_DIGITS,
            w + 4 == blen,
            blen == s@.len() - start,
            body =~= s@.subrange(start as int, s@.len() as int),
            forall|k: int| 0 <= k < w ==> is_digit(#[trigger] body[k]),
            forall|k: int| w < k < j ==> is_digit(#[trigger] body[k]),
            frac == value_of(body.subrange(w + 1, j as int)),
            frac < pow10((j - w - 1) as nat),
            pow10((j - w - 1) as nat) <= 1000,
        decreases blen - j,
    {
        let c = s[start + j];
        assert(c == body[j as int]);
        if c < 48 || c > 57 {
            assert(!is_digit(body[j as int]));
            assert(!digits_around_point(body));
            return None;
        }
        assert(body.subrange(w + 1, j + 1).drop_last() =~= body.subrange(w + 1, j as int));
        proof {
            lemma_pow10_step((j - w - 1) as nat, frac as nat, (c - 48) as nat);
            lemma_pow10_mono((j + 1 - w - 1) as nat, 3);
        }
        frac = frac * 10 + (c - 48) as u64;
        j = j + 1;
    }
    assert(body.skip(w + 1) =~= body.subrange(w + 1, blen as int));
    let m: i64 = (whole * 1000 + frac) as i64;
    let v: i64 = if neg { -m } else { m };
    if v < i32::MIN as i64 || v > i32::MAX as i64 {
        return None;
    }
    Some(v as i32)
}

/// Ten to the power `n`.
pub open spec fn pow10(n: nat) -> nat
    decreases n,
{
    if n == 0 { 1 } else { 10 * pow10((n - 1) as nat) }
}

proof fn lemma_pow10_step(i: nat, x: nat, d: nat)
    requires
        x < pow10(i),
        d < 10,
    ensures
        x * 10 + d < pow10(i + 1),
{
    assert(pow10(i + 1) == 10 * pow10(i));
}

proof fn lemma_pow10_mono(i: nat, j: nat)
    requires
        i <= j,
    ensures
        pow10(i) <= pow10(j),
    decreases j,
{
    if i < j {
        lemma_pow10_mono(i, (j - 1) as nat);
    }
}

/// The text of one field: the sample, or nothing for a pad.
pub open spec fn fmt_field(c: Option<i32>) -> Seq<u8> {
    match c {
        Some(v) => fmt_sample(v as int),
        None => Seq::empty(),
    }
}

/// The fields of a row joined by ','.
pub open spec fn fmt_row(row: Seq<Option<i32>>) -> Seq<u8>
    decreases row.len(),
{
    if row.len() == 0 {
        Seq::empty()
    } else if row.len() == 1 {
        fmt_field(row[0])
    } else {
        fmt_row(row.drop_last()) + seq![44u8] + fmt_field(row.last())
    }
}

/// The text of a table: each row on a line of its own, each line ended by '\n'.
pub open spec fn fmt_table(rows: Seq<Seq<Option<i32>>>) -> Seq<u8>
    decreases rows.len(),
{
    if rows.len() == 0 {
        Seq::empty()
    } else {
        fmt_table(rows.drop_last()) + fmt_row(rows.last()) + seq![10u8]
    }
}

/// The text of a table, as `fmt_table` gives it.
pub fn format_table(rows: &Vec<Vec<Option<i32>>>) -> (r: Vec<u8>)
    ensures
        r@ == fmt_table(crate::export::row_views(rows@)),
{
    let ghost t = crate::export::row_views(rows@);
    let mut out: Vec<u8> = Vec::new();
    let mut k: usize = 0;
    while k < rows.len()
        invariant
            k <= rows@.len(),
            t == crate::export::row_views(rows@),
            out@ == fmt_table(t.take(k as int)),
        decreases rows@.len() - k,
    {
        let row = &rows[k];
        let ghost before = out@;
        let mut j: usize = 0;
        while j < row.len()
            invariant
                j <= row@.len(),
                out@ == before + fmt_row(row@.take(j as int)),
            decreases row@.len() - j,
        {
            assert(row@.take(j + 1).drop_last() =~= row@.take(j as int));
            if j > 0 {
                out.push(44u8);
            }
            match row[j] {
                Some(v) => push_sample(v, &mut out),
                None => {},
            }
            assert(out@ =~= before + fmt_row(row@.take(j + 1)));
            j = j + 1;
        }
        assert(row@.take(row@.len() as int) =~= row@);
        assert(t[k as int] == row@);
        out.push(10u8);
        assert(t.take(k + 1).drop_last() =~= t.take(k as int));
        assert(out@ =~= fmt_table(t.take(k + 1)));
        k = k + 1;
    }
    assert(t.take(rows@.len() as int) =~= t);
    out
}

/// The pieces of `s` between the bytes equal to `sep`; at least one, possibly empty.
pub open spec fn split_on(s: Seq<u8>, sep: u8) -> Seq<Seq<u8>>
    decreases s.len(),
{
    if s.len() == 0 {
        seq![Seq::<u8>::empty()]
    } else {
        let p = split_on(s.drop_last(), sep);
        if s.last() == sep {
            p.push(Seq::empty())
        } else {
            p.update(p.len() - 1, p.last().push(s.last()))
        }
    }
}

/// No byte of `s` is `sep`.
pub open spec fn free_of(s: Seq<u8>, sep: u8) -> bool {
    forall|i: int| 0 <= i < s.len() ==> #[trigger] s[i] != sep
}

/// What one field of an imported table holds: `None` for an empty field, the
/// sample otherwise; the outer `None` marks a malformed field.
pub open spec fn read_cell(f: Seq<u8>) -> Option<Option<i32>> {
    if f.len() == 0 {
        Some(None)
    } else {
        match parse_field(f) {
            Some(v) => Some(Some(v as i32)),
            None => None,
        }
    }
}

/// A line holds `width` fields, each empty or a well-formed sample.
pub open spec fn line_ok(line: Seq<u8>, width: nat) -> bool {
    &&& split_on(line, 44u8).len() == width
    &&& forall|j: int| 0 <= j < width ==> read_cell(#[trigger] split_on(line, 44u8)[j]) is Some
}

/// The fields of a well-formed line.
pub open spec fn read_line(line: Seq<u8>, width: nat) -> Seq<Option<i32>> {
    Seq::new(width, |j: int| read_cell(split_on(line, 44u8)[j])->Some_0)
}

/// The table that a text holds when every line ends with '\n' and has `width`
/// well-formed fields; `None` otherwise.
pub open spec fn read_table(text: Seq<u8>, width: nat) -> Option<Seq<Seq<Option<i32>>>> {
    let lines = split_on(text, 10u8);
    let body = lines.drop_last();
    if lines.last().len() == 0 && (forall|k: int| 0 <= k < body.len() ==> line_ok(#[trigger] body[k], width)) {
        Some(Seq::new(body.len(), |k: int| read_line(body[k], width)))
    } else {
        None
    }
}

proof fn lemma_split_extend(a: Seq<u8>, b: Seq<u8>, sep: u8)
    requires
        free_of(b, sep),
    ensures
        split_on(a + b, sep) == split_on(a, sep).update(
            split_on(a, sep).len() - 1,
            split_on(a, sep).last() + b,
        ),
        split_on(a + b, sep).len() == split_on(a, sep).len(),
    decreases b.len(),
{
    lemma_split_len(a, sep);
    if b.len() == 0 {
        assert(a + b =~= a);
        assert(split_on(a, sep).last() + b =~= split_on(a, sep).last());
        assert(split_on(a, sep).update(split_on(a, sep).len() - 1, split_on(a, sep).last())
            =~= split_on(a, sep));
    } else {
        let b0 = b.drop_last();
        lemma_split_extend(a, b0, sep);
        assert((a + b).drop_last() =~= a + b0);
        assert((a + b).last() == b.last());
        assert(b.last() != sep);
        let p = split_on(a, sep);
        assert(p.last() + b =~= (p.last() + b0).push(b.last()));
        assert(split_on(a + b, sep) =~= p.update(p.len() - 1, p.last() + b));
    }
}

proof fn lemma_split_len(a: Seq<u8>, sep: u8)
    ensures
        split_on(a, sep).len() >= 1,
    decreases a.len(),
{
    if a.len() > 0 {
        lemma_split_len(a.drop_last(), sep);
    }
}

proof fn lemma_sample_bytes(v: i32)
    ensures
        fmt_sample(v as int).len() > 0,
        free_of(fmt_sample(v as int), 44u8),
        free_of(fmt_sample(v as int), 10u8),
{
    let a = abs(v as int);
    let body = fmt_magnitude(a);
    lemma_magnitude(a);
    let s = fmt_sample(v as int);
    if v < 0 {
        assert(s =~= seq![45u8] + body);
    } else {
        assert(s =~= body);
    }
    assert forall|i: int| 0 <= i < s.len() implies #[trigger] s[i] != 44u8 && s[i] != 10u8 by {
        if v < 0 {
            if i > 0 {
                assert(s[i] == body[i - 1]);
            }
        } else {
            assert(s[i] == body[i]);
        }
    }
}

proof fn lemma_field(c: Option<i32>)
    ensures
        free_of(fmt_field(c), 44u8),
        free_of(fmt_field(c), 10u8),
        read_cell(fmt_field(c)) == Some(c),
{
    match c {
        Some(v) => {
            lemma_sample_bytes(v);
            lemma_sample_round_trip(v);
        },
        None => {},
    }
}

proof fn lemma_row(row: Seq<Option<i32>>)
    requires
        row.len() >= 1,
    ensures
        split_on(fmt_row(row), 44u8) == row.map_values(|c: Option<i32>| fmt_field(c)),
        free_of(fmt_row(row), 10u8),
    decreases row.len(),
{
    lemma_field(row.last());
    if row.len() == 1 {
        lemma_split_extend(Seq::empty(), fmt_field(row[0]), 44u8);
        assert(Seq::<u8>::empty() + fmt_field(row[0]) =~= fmt_field(row[0]));
        assert(split_on(Seq::<u8>::empty(), 44u8).last() + fmt_field(row[0]) =~= fmt_field(row[0]));
        assert(split_on(fmt_row(row), 44u8) =~= row.map_values(|c: Option<i32>| fmt_field(c)));
    } else {
        let prev = fmt_row(row.drop_last());
        lemma_row(row.drop_last());
        let a = prev + seq![44u8];
        assert(a.drop_last() =~= prev);
        lemma_split_len(prev, 44u8);
        assert(split_on(a, 44u8) =~= split_on(prev, 44u8).push(Seq::empty()));
        lemma_split_extend(a, fmt_field(row.last()), 44u8);
        assert(Seq::<u8>::empty() + fmt_field(row.last()) =~= fmt_field(row.last()));
        assert(split_on(fmt_row(row), 44u8) =~= row.map_values(|c: Option<i32>| fmt_field(c)));
        assert forall|i: int| 0 <= i < fmt_row(row).len() implies #[trigger] fmt_row(row)[i] != 10u8 by {
            if i < prev.len() {
                assert(fmt_row(row)[i] == prev[i]);
            } else if i > prev.len() {
                assert(fmt_row(row)[i] == fmt_field(row.last())[i - prev.len() - 1]);
            }
        }
    }
}

proof fn lemma_lines(rows: Seq<Seq<Option<i32>>>, width: nat)
    requires
        width >= 1,
        forall|k: int| 0 <= k < rows.len() ==> #[trigger] rows[k].len() == width,
    ensures
        split_on(fmt_table(rows), 10u8) == rows.map_values(|r: Seq<Option<i32>>| fmt_row(r)).push(
            Seq::empty(),
        ),
    decreases rows.len(),
{
    if rows.len() == 0 {
        assert(split_on(fmt_table(rows), 10u8) =~= rows.map_values(
            |r: Seq<Option<i32>>| fmt_row(r),
        ).push(Seq::empty()));
    } else {
        let prev = fmt_table(rows.drop_last());
        let line = fmt_row(rows.last());
        lemma_lines(rows.drop_last(), width);
        assert(rows.last().len() == width);
        lemma_row(rows.last());
        lemma_split_extend(prev, line, 10u8);
        let x = prev + line;
        assert((x + seq![10u8]).drop_last() =~= x);
        assert(fmt_table(rows) == x + seq![10u8]);
        assert(Seq::<u8>::empty() + line =~= line);
        assert(split_on(fmt_table(rows), 10u8) =~= rows.map_values(
            |r: Seq<Option<i32>>| fmt_row(r),
        ).push(Seq::empty()));
    }
}

/// Reading back the text of a table whose rows are `width` fields wide gives
/// the same table.
pub proof fn lemma_table_round_trip(rows: Seq<Seq<Option<i32>>>, width: nat)
    requires
        width >= 1,
        forall|k: int| 0 <= k < rows.len() ==> #[trigger] rows[k].len() == width,
    ensures
        read_table(fmt_table(rows), width) == Some(rows),
{
    lemma_lines(rows, width);
    let lines = split_on(fmt_table(rows), 10u8);
    let body = lines.drop_last();
    assert(body =~= rows.map_values(|r: Seq<Option<i32>>| fmt_row(r)));
    assert forall|k: int| 0 <= k < body.len() implies line_ok(#[trigger] body[k], width) by {
        assert(rows[k].len() == width);
        lemma_row(rows[k]);
        assert forall|j: int| 0 <= j < width implies read_cell(#[trigger] split_on(body[k], 44u8)[j]) is Some by {
            lemma_field(rows[k][j]);
        }
    }
    let t = read_table(fmt_table(rows), width)->Some_0;
    assert forall|k: int| 0 <= k < rows.len() implies #[trigger] t[k] == rows[k] by {
        lemma_row(rows[k]);
        assert forall|j: int| 0 <= j < width implies #[trigger] t[k][j] == rows[k][j] by {
            lemma_field(rows[k][j]);
        }
        assert(t[k] =~= rows[k]);
    }
    assert(t =~= rows);
}

/// The bytes of each piece.
pub open spec fn piece_views(v: Seq<Vec<u8>>) -> Seq<Seq<u8>> {
    v.map_values(|p: Vec<u8>| p@)
}

/// The pieces of `s` between the bytes equal to `sep`, as `split_on` gives them.
pub fn split_bytes(s: &[u8], sep: u8) -> (r: Vec<Vec<u8>>)
    ensures
        piece_views(r@) == split_on(s@, sep),
{
    let mut out: Vec<Vec<u8>> = Vec::new();
    out.push(Vec::new());
    assert(s@.take(0) =~= Seq::<u8>::empty());
    assert(piece_views(out@) =~= split_on(s@.take(0), sep));
    let mut i: usize = 0;
    while i < s.len()
        invariant
            i <= s@.len(),
            out@.len() >= 1,
            piece_views(out@) == split_on(s@.take(i as int), sep),
        decreases s@.len() - i,
    {
        assert(s@.take(i + 1).drop_last() =~= s@.take(i as int));
        assert(s@.take(i + 1).last() == s@[i as int]);
        let ghost before = out@;
        if s[i] == sep {
            out.push(Vec::new());
            assert(piece_views(out@) =~= split_on(s@.take(i + 1), sep));
        } else {
            let mut last = out.pop().unwrap();
            last.push(s[i]);
            out.push(last);
            assert(piece_views(out@) =~= split_on(s@.take(i + 1), sep));
        }
        i = i + 1;
    }
    assert(s@.take(s@.len() as int) =~= s@);
    out
}

/// Reads back a table written by `format_table`: `None` unless every line ends
/// with '\n' and holds `width` well-formed fields.
pub fn parse_table(text: &[u8], width: usize) -> (r: Option<Vec<Vec<Option<i32>>>>)
    ensures
        r matches Some(t) ==> read_table(text@, width as nat) == Some(
            crate::export::row_views(t@),
        ),
        r is None ==> read_table(text@, width as nat) is None,
{
    let lines = split_bytes(text, 10u8);
    let ghost ls = split_on(text@, 10u8);
    proof {
        lemma_split_len(text@, 10u8);
    }
    let ghost body = ls.drop_last();
    let n = lines.len();
    assert(piece_views(lines@).len() == n);
    if n == 0 {
        proof {
            lemma_split_len(text@, 10u8);
        }
        return None;
    }
    assert(lines@[n - 1]@ == ls.last());
    if lines[n - 1].len() != 0 {
        return None;
    }
    let ghost want = Seq::new(body.len(), |k: int| read_line(body[k], width as nat));
    let mut rows: Vec<Vec<Option<i32>>> = Vec::new();
    let mut k: usize = 0;
    while k < n - 1
        invariant
            n == lines@.len(),
            n >= 1,
            piece_views(lines@) == ls,
            ls == split_on(text@, 10u8),
            ls.last().len() == 0,
            body == ls.drop_last(),
            k <= n - 1,
            want == Seq::new(body.len(), |kk: int| read_line(body[kk], width as nat)),
            crate::export::row_views(rows@) == want.take(k as int),
            forall|i: int| 0 <= i < k ==> line_ok(#[trigger] body[i], width as nat),
        decreases n - 1 - k,
    {
        assert(lines@[k as int]@ == body[k as int]);
        let fields = split_bytes(lines[k].as_slice(), 44u8);
        let ghost fs = split_on(body[k as int], 44u8);
        if fields.len() != width {
            assert(piece_views(fields@).len() == fields@.len());
            assert(!line_ok(body[k as int], width as nat));
            assert(!(forall|kk: int| 0 <= kk < body.len() ==> line_ok(#[trigger] body[kk], width as nat)));
            return None;
        }
        let mut row: Vec<Option<i32>> = Vec::new();
        let mut j: usize = 0;
        while j < width
            invariant
                fields@.len() == width,
                piece_views(fields@) == fs,
                fs == split_on(body[k as int], 44u8),
                k < n - 1,
                body.len() == n - 1,
                body == split_on(text@, 10u8).drop_last(),
                want == Seq::new(body.len(), |kk: int| read_line(body[kk], width as nat)),
                j <= width,
                row@ == want[k as int].take(j as int),
                forall|i: int| 0 <= i < j ==> read_cell(#[trigger] fs[i]) is Some,
            decreases width - j,
        {
            assert(fields@[j as int]@ == fs[j as int]);
            let f = &fields[j];
            if f.len() == 0 {
                row.push(None);
            } else {
                match parse_sample(f.as_slice()) {
                    Some(v) => row.push(Some(v)),
                    None => {
                        assert(read_cell(fs[j as int]) is None);
                        assert(!line_ok(body[k as int], width as nat));
                        assert(!(forall|kk: int| 0 <= kk < body.len() ==> line_ok(#[trigger] body[kk], width as nat)));
                        return None;
                    },
                }
            }
            assert(row@ =~= want[k as int].take(j + 1));
            j = j + 1;
        }
        assert(row@ =~= want[k as int]);
        assert(line_ok(body[k as int], width as nat));
        let ghost before = rows@;
        rows.push(row);
        assert(crate::export::row_views(rows@) =~= crate::export::row_views(before).push(want[k as int]));
        assert(want.take(k + 1) =~= want.take(k as int).push(want[k as int]));
        k = k + 1;
    }
    assert(want.take(body.len() as int) =~= want);
    Some(rows)
}

/// How many fields the first line of a text has; zero for an empty text.
pub open spec fn text_width(text: Seq<u8>) -> nat {
    if text.len() == 0 {
        0
    } else {
        split_on(split_on(text, 10u8)[0], 44u8).len()
    }
}

/// Reads back the columns of an exported text, as wide as its first line.
/// `None` when the text is not a well-formed table.
pub fn read_columns(text: &[u8]) -> (r: Option<Vec<Vec<i32>>>)
    ensures
        match read_table(text@, text_width(text@)) {
            Some(t) => r matches Some(c) && c@.len() == text_width(text@) && forall|j: int|
                0 <= j < c@.len() ==> #[trigger] c@[j]@ == crate::export::gathered(t, j),
            None => r is None,
        },
{
    let mut width: usize = 0;
    if text.len() > 0 {
        let lines = split_bytes(text, 10u8);
        proof {
            lemma_split_len(text@, 10u8);
        }
        assert(lines@[0]@ == split_on(text@, 10u8)[0]);
        let fields = split_bytes(lines[0].as_slice(), 44u8);
        assert(piece_views(fields@).len() == fields@.len());
        width = fields.len();
    }
    match parse_table(text, width) {
        Some(t) => {
            proof {
                let tv = crate::export::row_views(t@);
                assert forall|k: int| 0 <= k < tv.len() implies #[trigger] tv[k].len() == width by {
                    assert(tv[k] == read_line(split_on(text@, 10u8).drop_last()[k], width as nat));
                }
            }
            Some(crate::export::import_columns(&t, width))
        },
        None => None,
    }
}

/// Writing columns as text and reading the text back gives every column with
/// the same samples in the same order.
pub proof fn lemma_export_text_round_trip(cols: Seq<Seq<i32>>)
    requires
        cols.len() >= 1,
    ensures
        read_table(fmt_table(crate::export::table_of(cols)), cols.len()) == Some(
            crate::export::table_of(cols),
        ),
        forall|j: int|
            0 <= j < cols.len() ==> #[trigger] crate::export::gathered(
                read_table(fmt_table(crate::export::table_of(cols)), cols.len())->Some_0,
                j,
            ) == cols[j],
{
    let t = crate::export::table_of(cols);
    crate::export::lemma_round_trip(cols, 0);
    assert forall|k: int| 0 <= k < t.len() implies #[trigger] t[k].len() == cols.len() by {
        assert(crate::export::rows_wide(t, cols.len() as int));
    }
    lemma_table_round_trip(t, cols.len());
    assert forall|j: int| 0 <= j < cols.len() implies #[trigger] crate::export::gathered(t, j)
        == cols[j] by {
        crate::export::lemma_round_trip(cols, j);
    }
}

} // verus!
