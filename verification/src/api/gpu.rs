//! Reading the GPU description printed by `nvidia-smi --query-gpu=name,memory.total,
//! driver_version --format=csv,noheader,nounits`.
use vstd::prelude::*;
use crate::compute::tensor::copy_vec;

verus! {

/// ASCII whitespace: tab, line feed, vertical tab, form feed, carriage return, space.
pub open spec fn is_space(c: u8) -> bool {
    (9 <= c && c <= 13) || c == 32
}

/// The second and third bytes `(x, y)` of a three-byte UTF-8 whitespace character that starts
/// with `lead`: U+1680, U+2000 to U+200A, U+2028, U+2029, U+202F, U+205F and U+3000.
pub open spec fn is_space3(lead: u8, x: u8, y: u8) -> bool {
    ||| lead == 0xe1 && x == 0x9a && y == 0x80
    ||| lead == 0xe2 && x == 0x80 && ((0x80 <= y && y <= 0x8a) || y == 0xa8 || y == 0xa9 || y == 0xaf)
    ||| lead == 0xe2 && x == 0x81 && y == 0x9f
    ||| lead == 0xe3 && x == 0x80 && y == 0x80
}

/// Length in bytes of the UTF-8 whitespace character (Unicode `White_Space`, as `str::trim`
/// uses) that starts at `k` and ends by `end`, or 0 when there is none.
pub open spec fn space_at(b: Seq<u8>, k: int, end: int) -> int {
    if k < end && is_space(b[k]) {
        1
    } else if k + 1 < end && b[k] == 0xc2 && (b[k + 1] == 0x85 || b[k + 1] == 0xa0) {
        2
    } else if k + 2 < end && is_space3(b[k], b[k + 1], b[k + 2]) {
        3
    } else {
        0
    }
}

/// Length in bytes of the UTF-8 whitespace character that ends at `e` and starts at or after
/// `start`, or 0 when there is none.
pub open spec fn space_before(b: Seq<u8>, start: int, e: int) -> int {
    if start < e && is_space(b[e - 1]) {
        1
    } else if start + 1 < e && b[e - 2] == 0xc2 && (b[e - 1] == 0x85 || b[e - 1] == 0xa0) {
        2
    } else if start + 2 < e && is_space3(b[e - 3], b[e - 2], b[e - 1]) {
        3
    } else {
        0
    }
}

/// Index of the first byte equal to `c` at or after `k`, or the length of `b`.
pub open spec fn find_from(b: Seq<u8>, c: u8, k: int) -> int
    decreases b.len() - k,
{
    if k < 0 || k >= b.len() {
        b.len() as int
    } else if b[k] == c {
        k
    } else {
        find_from(b, c, k + 1)
    }
}

/// End of the first line of `b`: before the first `\n`, and before a `\r` right in front
/// of it; the whole of `b` when it has no `\n`.
pub open spec fn first_line_end(b: Seq<u8>) -> int {
    let e = find_from(b, 10, 0);
    if e < b.len() && e > 0 && b[e - 1] == 13 {
        e - 1
    } else {
        e
    }
}

/// Index in `[k, end]` of `b` where the leading whitespace characters from `k` end.
pub open spec fn skip_space(b: Seq<u8>, k: int, end: int) -> int
    decreases end - k,
{
    if k >= end || space_at(b, k, end) == 0 {
        if k >= end { end } else { k }
    } else {
        skip_space(b, k + space_at(b, k, end), end)
    }
}

/// End of `b[start .. e)` without its trailing whitespace characters.
pub open spec fn trim_back(b: Seq<u8>, start: int, e: int) -> int
    decreases e - start,
{
    if e <= start || space_before(b, start, e) == 0 {
        if e <= start { start } else { e }
    } else {
        trim_back(b, start, e - space_before(b, start, e))
    }
}

/// `b[start .. end)` without leading and trailing whitespace.
pub open spec fn trimmed(b: Seq<u8>, start: int, end: int) -> Seq<u8> {
    let s = skip_space(b, start, end);
    b.subrange(s, trim_back(b, s, end))
}

/// The comma-separated fields of `b[start .. end)`, each trimmed.
pub open spec fn fields_from(b: Seq<u8>, start: int, end: int) -> Seq<Seq<u8>>
    decreases end - start,
{
    let c = find_from(b.take(end), 0x2c, start);
    if start > end || c >= end || c < start {
        seq![trimmed(b, start, end)]
    } else {
        seq![trimmed(b, start, c)] + fields_from(b, c + 1, end)
    }
}

/// The trimmed comma-separated fields of the first line of `b`.
pub open spec fn first_line_fields(b: Seq<u8>) -> Seq<Seq<u8>> {
    fields_from(b, 0, first_line_end(b))
}

/// Value of a string of decimal digits.
pub open spec fn digits_value(d: Seq<u8>) -> int
    decreases d.len(),
{
    if d.len() == 0 {
        0
    } else {
        digits_value(d.drop_last()) * 10 + (d.last() - 48)
    }
}

/// `f` without one leading `+`.
pub open spec fn without_plus(f: Seq<u8>) -> Seq<u8> {
    if f.len() > 0 && f[0] == 0x2b {
        f.skip(1)
    } else {
        f
    }
}

/// Every byte of `d` is a decimal digit.
pub open spec fn all_digits(d: Seq<u8>) -> bool {
    forall|i: int| 0 <= i < d.len() ==> 48 <= #[trigger] d[i] <= 57
}

/// What `usize::from_str` accepts: an optional `+`, then at least one decimal digit, for a
/// value that fits in `usize`.
pub open spec fn parse_usize_spec(f: Seq<u8>) -> Option<usize> {
    let d = without_plus(f);
    if d.len() > 0 && all_digits(d) && digits_value(d) <= usize::MAX {
        Some(digits_value(d) as usize)
    } else {
        None
    }
}

/// The GPU description read from one line: name, memory in MiB and driver version.
pub struct GpuQuery {
    pub available: bool,
    pub name: Option<Vec<u8>>,
    pub vram_mb: Option<usize>,
    pub driver_version: Option<Vec<u8>>,
}

/// Index of the first `c` in `b[k .. end)`, or `end`.
fn find_byte(b: &[u8], c: u8, k: usize, end: usize) -> (r: usize)
    requires
        k <= end <= b@.len(),
    ensures
        r == find_from(b@.take(end as int), c, k as int),
        k <= r <= end,
{
    let mut i = k;
    while i < end
        invariant
            k <= i <= end,
            end <= b@.len(),
            find_from(b@.take(end as int), c, k as int) == find_from(b@.take(end as int), c, i as int),
        decreases end - i,
    {
        if b[i] == c {
            return i;
        }
        i = i + 1;
    }
    i
}

/// `space_at` of `b` at `k`, for `k < end`.
fn space_len_at(b: &[u8], k: usize, end: usize) -> (r: usize)
    requires
        k < end <= b@.len(),
    ensures
        r == space_at(b@, k as int, end as int),
{
    let c = b[k];
    if c == 32u8 || (9u8 <= c && c <= 13u8) {
        1
    } else if k + 1 < end && c == 0xc2u8 && (b[k + 1] == 0x85u8 || b[k + 1] == 0xa0u8) {
        2
    } else if end - k > 2 && is_space3_exec(c, b[k + 1], b[k + 2]) {
        3
    } else {
        0
    }
}

/// `space_before` of `b` at `e`, for `start < e`.
fn space_len_before(b: &[u8], start: usize, e: usize) -> (r: usize)
    requires
        start < e <= b@.len(),
    ensures
        r == space_before(b@, start as int, e as int),
{
    let c = b[e - 1];
    if c == 32u8 || (9u8 <= c && c <= 13u8) {
        1
    } else if start + 1 < e && b[e - 2] == 0xc2u8 && (c == 0x85u8 || c == 0xa0u8) {
        2
    } else if e - start > 2 && is_space3_exec(b[e - 3], b[e - 2], c) {
        3
    } else {
        0
    }
}

fn is_space3_exec(lead: u8, x: u8, y: u8) -> (r: bool)
    ensures
        r == is_space3(lead, x, y),
{
    (lead == 0xe1u8 && x == 0x9au8 && y == 0x80u8) || (lead == 0xe2u8 && x == 0x80u8 && ((0x80u8 <= y && y <= 0x8au8)
        || y == 0xa8u8 || y == 0xa9u8 || y == 0xafu8)) || (lead == 0xe2u8 && x == 0x81u8 && y == 0x9fu8) || (lead
        == 0xe3u8 && x == 0x80u8 && y == 0x80u8)
}

/// `b[start .. end)` without leading and trailing whitespace.
fn trim_field(b: &[u8], start: usize, end: usize) -> (r: Vec<u8>)
    requires
        start <= end <= b@.len(),
    ensures
        r@ == trimmed(b@, start as int, end as int),
{
    let mut s = start;
    loop
        invariant
            start <= s <= end <= b@.len(),
            skip_space(b@, start as int, end as int) == skip_space(b@, s as int, end as int),
        ensures
            start <= s <= end,
            skip_space(b@, start as int, end as int) == s,
        decreases end - s,
    {
        if s >= end {
            break;
        }
        let n = space_len_at(b, s, end);
        if n == 0 {
            break;
        }
        s = s + n;
    }
    let mut e = end;
    loop
        invariant
            s <= e <= end <= b@.len(),
            trim_back(b@, s as int, end as int) == trim_back(b@, s as int, e as int),
        ensures
            s <= e <= end,
            trim_back(b@, s as int, end as int) == e,
        decreases e - s,
    {
        if e <= s {
            break;
        }
        let n = space_len_before(b, s, e);
        if n == 0 {
            break;
        }
        e = e - n;
    }
    let mut r: Vec<u8> = Vec::new();
    let mut i = s;
    while i < e
        invariant
            s <= i <= e <= b@.len(),
            r@ == b@.subrange(s as int, i as int),
        decreases e - i,
    {
        r.push(b[i]);
        i = i + 1;
        assert(r@ =~= b@.subrange(s as int, i as int));
    }
    r
}

/// Reads a decimal `usize` as `usize::from_str` does, or `None`.
fn parse_usize(f: &Vec<u8>) -> (r: Option<usize>)
    ensures
        r == parse_usize_spec(f@),
{
    let start: usize = if f.len() > 0 && f[0] == 0x2bu8 { 1 } else { 0 };
    let ghost d = without_plus(f@);
    assert(d =~= f@.skip(start as int));
    if start >= f.len() {
        return None;
    }
    let mut value: usize = 0;
    let mut i = start;
    while i < f.len()
        invariant
            start <= i <= f@.len(),
            d == f@.skip(start as int),
            d == without_plus(f@),
            forall|k: int| 0 <= k < i - start ==> 48 <= #[trigger] d[k] <= 57,
            value == digits_value(d.take(i - start)),
        decreases f.len() - i,
    {
        let c = f[i];
        assert(d[i - start] == c);
        if c < 48u8 || c > 57u8 {
            proof {
                assert(!(48 <= d[i - start] <= 57));
            }
            return None;
        }
        assert(d.take(i - start + 1).drop_last() =~= d.take(i - start));
        let digit = (c - 48u8) as usize;
        if value > (usize::MAX - digit) / 10 {
            proof {
                assert(digits_value(d.take(i - start + 1)) > usize::MAX) by (nonlinear_arith)
                    requires
                        value > (usize::MAX - digit) / 10,
                        digits_value(d.take(i - start + 1)) == value * 10 + digit,
                        0 <= digit <= 9,
                ;
                if all_digits(d) {
                    lemma_digits_value_prefix_grows(d, i - start + 1);
                }
            }
            return None;
        }
        assert(value * 10 + digit <= usize::MAX) by (nonlinear_arith)
            requires
                value <= (usize::MAX - digit) / 10,
                0 <= digit <= 9,
        ;
        value = value * 10 + digit;
        i = i + 1;
    }
    assert(d.take(i - start) =~= d);
    Some(value)
}

/// A longer prefix of a digit string has a value at least as large.
proof fn lemma_digits_value_prefix_grows(d: Seq<u8>, m: int)
    requires
        0 <= m <= d.len(),
        forall|k: int| 0 <= k < d.len() ==> 48 <= #[trigger] d[k] <= 57,
    ensures
        digits_value(d.take(m)) <= digits_value(d),
    decreases d.len() - m,
{
    if m < d.len() {
        lemma_digits_value_prefix_grows(d, m + 1);
        assert(d.take(m + 1).drop_last() =~= d.take(m));
        assert(digits_value(d.take(m)) >= 0) by {
            lemma_digits_value_nonneg(d.take(m));
        }
    } else {
        assert(d.take(m) =~= d);
    }
}

proof fn lemma_digits_value_nonneg(d: Seq<u8>)
    requires
        forall|k: int| 0 <= k < d.len() ==> 48 <= #[trigger] d[k] <= 57,
    ensures
        digits_value(d) >= 0,
    decreases d.len(),
{
    if d.len() > 0 {
        lemma_digits_value_nonneg(d.drop_last());
    }
}

/// Views of a list of byte strings.
pub open spec fn byte_views(v: Seq<Vec<u8>>) -> Seq<Seq<u8>> {
    v.map_values(|x: Vec<u8>| x@)
}

/// The trimmed comma-separated fields of `b[0 .. end)`.
fn split_fields(b: &[u8], end: usize) -> (r: Vec<Vec<u8>>)
    requires
        end <= b@.len(),
    ensures
        byte_views(r@) == fields_from(b@, 0, end as int),
        r.len() >= 1,
{
    let mut out: Vec<Vec<u8>> = Vec::new();
    let mut start: usize = 0;
    assert(byte_views(out@) + fields_from(b@, 0, end as int) =~= fields_from(b@, 0, end as int));
    loop
        invariant
            start <= end <= b@.len(),
            byte_views(out@) + fields_from(b@, start as int, end as int) == fields_from(b@, 0, end as int),
        decreases end - start,
    {
        let c = find_byte(b, 0x2cu8, start, end);
        if c >= end {
            let f = trim_field(b, start, end);
            let ghost before = byte_views(out@);
            out.push(f);
            proof {
                assert(byte_views(out@) =~= before.push(f@));
                assert(fields_from(b@, start as int, end as int) == seq![trimmed(b@, start as int, end as int)]);
                assert(byte_views(out@) =~= before + fields_from(b@, start as int, end as int));
            }
            return out;
        }
        let f = trim_field(b, start, c);
        let ghost before = byte_views(out@);
        out.push(f);
        proof {
            assert(byte_views(out@) =~= before.push(f@));
            assert(fields_from(b@, start as int, end as int) == seq![trimmed(b@, start as int, c as int)] + fields_from(
                b@,
                c + 1,
                end as int,
            ));
            assert(byte_views(out@) + fields_from(b@, c + 1, end as int) =~= before + fields_from(b@, start as int, end as int));
        }
        start = c + 1;
    }
}

/// The GPU described on the first line of `nvidia-smi`'s output: the line is split at commas
/// and each field trimmed; the description is complete when there are at least three fields.
pub fn parse_gpu_query(stdout: &[u8]) -> (r: GpuQuery)
    ensures
        ({
            let fs = first_line_fields(stdout@);
            &&& r.available == (fs.len() >= 3)
            &&& (r.name matches Some(v) && v@ == fs[0])
            &&& r.vram_mb == (if fs.len() >= 2 { parse_usize_spec(fs[1]) } else { None::<usize> })
            &&& (fs.len() >= 3 ==> (r.driver_version matches Some(v) && v@ == fs[2]))
            &&& (fs.len() < 3 ==> r.driver_version is None)
        }),
{
    let n = stdout.len();
    let nl = find_byte(stdout, 10u8, 0, n);
    assert(stdout@.take(n as int) =~= stdout@);
    let end = if nl < n && nl > 0 && stdout[nl - 1] == 13u8 { nl - 1 } else { nl };
    let fields = split_fields(stdout, end);
    let ghost fs = byte_views(fields@);
    proof {
        assert(fs.len() == fields.len());
        assert(fs[0] == fields@[0]@);
    }
    let name = Some(copy_vec(&fields[0]));
    let vram_mb = if fields.len() >= 2 {
        proof {
            assert(fs[1] == fields@[1]@);
        }
        parse_usize(&fields[1])
    } else {
        None
    };
    let driver_version = if fields.len() >= 3 {
        proof {
            assert(fs[2] == fields@[2]@);
        }
        Some(copy_vec(&fields[2]))
    } else {
        None
    };
    GpuQuery { available: fields.len() >= 3, name, vram_mb, driver_version }
}

} // verus!
