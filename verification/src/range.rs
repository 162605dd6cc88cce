//! Byte ranges, and what a request for a file is answered with.

use crate::number;
use crate::text;
use vstd::prelude::*;

verus! {

/// The part of a file that a request asks for.
#[derive(Clone, Copy, Debug, PartialEq, Eq, Structural)]
pub enum ByteRange {
    /// The whole file.
    Full,
    /// The bytes from `start` to `end`, both of them included.
    Part { start: u64, end: u64 },
    /// A range that the file does not have.
    Unsatisfiable,
}

/// The smaller of two numbers.
pub open spec fn smaller(a: int, b: int) -> int {
    if a <= b {
        a
    } else {
        b
    }
}

/// The range that `first-last` asks for, in a file that is not empty.
pub open spec fn interval(spec: Seq<char>, len: u64) -> ByteRange {
    match text::find_char_from(spec, '-', 0) {
        None => ByteRange::Unsatisfiable,
        Some(k) => {
            let last = spec.subrange(k + 1, spec.len() as int);
            match number::unsigned(spec.subrange(0, k), u64::MAX as nat) {
                None => ByteRange::Unsatisfiable,
                Some(start) => if start >= len {
                    ByteRange::Unsatisfiable
                } else if last.len() == 0 {
                    ByteRange::Part { start: start as u64, end: (len - 1) as u64 }
                } else {
                    match number::unsigned(last, u64::MAX as nat) {
                        None => ByteRange::Unsatisfiable,
                        Some(end) => if end < start {
                            ByteRange::Unsatisfiable
                        } else {
                            ByteRange::Part {
                                start: start as u64,
                                end: smaller(end as int, len - 1) as u64,
                            }
                        },
                    }
                },
            }
        },
    }
}

/// The range that `-count` asks for, in a file that is not empty: its last bytes.
pub open spec fn suffix(count: Seq<char>, len: u64) -> ByteRange {
    match number::unsigned(count, u64::MAX as nat) {
        None => ByteRange::Unsatisfiable,
        Some(n) => if n == 0 {
            ByteRange::Unsatisfiable
        } else {
            ByteRange::Part {
                start: (len - smaller(n as int, len as int)) as u64,
                end: (len - 1) as u64,
            }
        },
    }
}

/// The part of a file of `len` bytes that a `Range` header asks for. A header
/// that is not understood, or that asks for more than one range, asks for the
/// whole file.
pub open spec fn range_of(header: Option<Seq<char>>, len: u64) -> ByteRange {
    match header {
        None => ByteRange::Full,
        Some(h) => {
            let t = text::trimmed(h);
            if !text::starts_with(t, "bytes="@) {
                ByteRange::Full
            } else {
                let spec = t.subrange(6, t.len() as int);
                if text::find_char_from(spec, ',', 0) is Some {
                    ByteRange::Full
                } else if len == 0 {
                    ByteRange::Unsatisfiable
                } else if spec.len() > 0 && spec[0] == '-' {
                    suffix(spec.subrange(1, spec.len() as int), len)
                } else {
                    interval(spec, len)
                }
            }
        },
    }
}

/// Reads a range of the form `first-last`.
fn parse_interval(v: &Vec<char>, len: u64) -> (r: ByteRange)
    requires
        len > 0,
    ensures
        r == interval(v@, len),
{
    proof {
        text::lemma_find_char_from(v@, '-', 0);
    }
    let k: usize = match text::find_char(v, '-', 0) {
        Some(k) => k,
        None => {
            return ByteRange::Unsatisfiable;
        },
    };
    let n: usize = v.len();
    let start: u64 = match number::parse_in(v, 0, k, u64::MAX) {
        Some(s) => s,
        None => {
            return ByteRange::Unsatisfiable;
        },
    };
    if start >= len {
        return ByteRange::Unsatisfiable;
    }
    if k + 1 == n {
        return ByteRange::Part { start, end: len - 1 };
    }
    match number::parse_in(v, k + 1, n, u64::MAX) {
        None => ByteRange::Unsatisfiable,
        Some(end) => {
            if end < start {
                ByteRange::Unsatisfiable
            } else if end <= len - 1 {
                ByteRange::Part { start, end }
            } else {
                ByteRange::Part { start, end: len - 1 }
            }
        },
    }
}

/// Reads a `Range` header for a file of `len` bytes.
pub fn parse_byte_range(header: Option<&str>, len: u64) -> (r: ByteRange)
    ensures
        r == range_of(
            match header {
                Some(h) => Some(h@),
                None => None,
            },
            len,
        ),
{
    let h: &str = match header {
        Some(h) => h,
        None => {
            return ByteRange::Full;
        },
    };
    let t = text::trim(h);
    proof {
        reveal_strlit("bytes=");
    }
    if !text::has_prefix(t.as_str(), "bytes=") {
        return ByteRange::Full;
    }
    let all = text::to_chars(t.as_str());
    let spec_text = text::text_of(&all, 6, all.len());
    let spec = text::to_chars(spec_text.as_str());
    let n: usize = spec.len();
    if text::find_char(&spec, ',', 0).is_some() {
        return ByteRange::Full;
    }
    if len == 0 {
        return ByteRange::Unsatisfiable;
    }
    if n > 0 && spec[0] == '-' {
        return match number::parse_in(&spec, 1, n, u64::MAX) {
            None => ByteRange::Unsatisfiable,
            Some(count) => {
                if count == 0 {
                    ByteRange::Unsatisfiable
                } else if count <= len {
                    ByteRange::Part { start: len - count, end: len - 1 }
                } else {
                    ByteRange::Part { start: 0, end: len - 1 }
                }
            },
        };
    }
    parse_interval(&spec, len)
}

/// A range lies inside the file.
pub proof fn law_range_lies_inside(header: Option<Seq<char>>, len: u64)
    ensures
        match range_of(header, len) {
            ByteRange::Part { start, end } => start <= end < len,
            _ => true,
        },
{
}

/// What a request for a file is answered with.
pub struct ServePlan {
    /// The HTTP status.
    pub status: u16,
    /// The `Content-Length` header.
    pub content_length: Option<u64>,
    /// The `Content-Range` header.
    pub content_range: Option<String>,
    /// The bytes to send, as where they start and how many they are.
    pub send: Option<(u64, u64)>,
}

/// A plan as plain values.
#[verifier::ext_equal]
pub struct Plan {
    pub status: u16,
    pub content_length: Option<u64>,
    pub content_range: Option<Seq<char>>,
    pub send: Option<(u64, u64)>,
}

impl View for ServePlan {
    type V = Plan;

    open spec fn view(&self) -> Plan {
        Plan {
            status: self.status,
            content_length: self.content_length,
            content_range: match self.content_range {
                Some(s) => Some(s@),
                None => None,
            },
            send: self.send,
        }
    }
}

/// The answer to a request for a file of `len` bytes. A `HEAD` request is
/// answered without the bytes.
pub open spec fn plan_of(header: Option<Seq<char>>, len: u64, head: bool) -> Plan {
    match range_of(header, len) {
        ByteRange::Unsatisfiable => Plan {
            status: 416,
            content_length: None,
            content_range: Some("bytes */"@ + number::decimal(len as nat)),
            send: None,
        },
        ByteRange::Full => Plan {
            status: 200,
            content_length: Some(len),
            content_range: None,
            send: if head {
                None
            } else {
                Some((0, len))
            },
        },
        ByteRange::Part { start, end } => Plan {
            status: 206,
            content_length: Some((end - start + 1) as u64),
            content_range: Some(
                "bytes "@ + number::decimal(start as nat) + "-"@ + number::decimal(end as nat)
                    + "/"@ + number::decimal(len as nat),
            ),
            send: if head {
                None
            } else {
                Some((start, (end - start + 1) as u64))
            },
        },
    }
}

/// Decides what a request for a file is answered with.
pub fn serve_plan(header: Option<&str>, len: u64, head: bool) -> (r: ServePlan)
    ensures
        r@ == plan_of(
            match header {
                Some(h) => Some(h@),
                None => None,
            },
            len,
            head,
        ),
{
    match parse_byte_range(header, len) {
        ByteRange::Unsatisfiable => {
            let mut s = String::from_str("bytes */");
            number::push_decimal(&mut s, len as u128);
            ServePlan { status: 416, content_length: None, content_range: Some(s), send: None }
        },
        ByteRange::Full => {
            let send: Option<(u64, u64)> = if head {
                None
            } else {
                Some((0, len))
            };
            ServePlan { status: 200, content_length: Some(len), content_range: None, send }
        },
        ByteRange::Part { start, end } => {
            let n: u64 = end - start + 1;
            let mut s = String::from_str("bytes ");
            number::push_decimal(&mut s, start as u128);
            s.append("-");
            number::push_decimal(&mut s, end as u128);
            s.append("/");
            number::push_decimal(&mut s, len as u128);
            let send: Option<(u64, u64)> = if head {
                None
            } else {
                Some((start, n))
            };
            ServePlan { status: 206, content_length: Some(n), content_range: Some(s), send }
        },
    }
}

/// What is sent lies inside the file, and is as long as the reply says; a
/// `HEAD` request is answered with the same headers and without bytes.
pub proof fn law_plan_is_consistent(header: Option<Seq<char>>, len: u64)
    ensures
        match plan_of(header, len, false).send {
            Some((start, n)) => start + n <= len && plan_of(header, len, false).content_length
                == Some(n),
            None => plan_of(header, len, false).status == 416,
        },
        plan_of(header, len, true) == (Plan { send: None, ..plan_of(header, len, false) }),
{
    assert(plan_of(header, len, true) =~= (Plan { send: None, ..plan_of(header, len, false) }));
}

/// Text without a comma, behind `bytes=` and without blanks around it, is read
/// as one range.
proof fn lemma_one_range(spec: Seq<char>, len: u64)
    requires
        spec.len() > 0 ==> text::is_graphic(spec.last()),
        forall|i: int| 0 <= i < spec.len() ==> #[trigger] spec[i] != ',',
    ensures
        range_of(Some("bytes="@ + spec), len) == if len == 0 {
            ByteRange::Unsatisfiable
        } else if spec.len() > 0 && spec[0] == '-' {
            suffix(spec.subrange(1, spec.len() as int), len)
        } else {
            interval(spec, len)
        },
{
    let h = "bytes="@ + spec;
    reveal_strlit("bytes=");
    assert(h.first() == 'b');
    assert(spec.len() > 0 ==> h.last() == spec.last());
    assert(spec.len() == 0 ==> h.last() == '=');
    text::lemma_tight_is_trimmed(h);
    assert(h.subrange(0, 6) =~= "bytes="@);
    assert(h.subrange(6, h.len() as int) =~= spec);
    text::lemma_find_char_from(spec, ',', 0);
}

/// A numeral has neither a comma nor a hyphen, and no blank at its end.
proof fn lemma_numeral(n: nat)
    ensures
        number::decimal(n).len() > 0,
        text::is_graphic(number::decimal(n).last()),
        forall|i: int|
            0 <= i < number::decimal(n).len() ==> #[trigger] number::decimal(n)[i] != ','
                && number::decimal(n)[i] != '-' && number::decimal(n)[i] != '+',
{
    number::lemma_decimal_digits(n);
    let d = number::decimal(n);
    assert(number::is_digit(d[d.len() - 1]));
    assert forall|i: int| 0 <= i < d.len() implies #[trigger] d[i] != ',' && d[i] != '-' && d[i]
        != '+' by {
        assert(number::is_digit(d[i]));
    }
}

/// What stands around the first hyphen, where a numeral stands in front of it.
proof fn lemma_first_hyphen(a: nat, tail: Seq<char>)
    ensures
        text::find_char_from(number::decimal(a) + "-"@ + tail, '-', 0) == Some(
            number::decimal(a).len() as int,
        ),
        (number::decimal(a) + "-"@ + tail).subrange(0, number::decimal(a).len() as int)
            == number::decimal(a),
        (number::decimal(a) + "-"@ + tail).subrange(
            (number::decimal(a).len() + 1) as int,
            (number::decimal(a) + "-"@ + tail).len() as int,
        ) == tail,
{
    reveal_strlit("-");
    let d = number::decimal(a);
    let spec = d + "-"@ + tail;
    lemma_numeral(a);
    assert forall|k: int| 0 <= k < d.len() implies #[trigger] spec[k] != '-' by {
        assert(spec[k] == d[k]);
    }
    text::lemma_char_at(spec, '-', 0, d.len() as int);
    assert(spec.subrange(0, d.len() as int) =~= d);
    assert(spec.subrange((d.len() + 1) as int, spec.len() as int) =~= tail);
}

/// A request for the bytes from `a` to `b` is given them, as far as the file
/// reaches; one for the bytes from `a` on is given the rest of the file.
pub proof fn law_ranges_in_the_file_are_given(a: u64, b: u64, len: u64)
    requires
        a <= b,
        a < len,
    ensures
        range_of(
            Some("bytes="@ + (number::decimal(a as nat) + "-"@ + number::decimal(b as nat))),
            len,
        ) == (ByteRange::Part {
            start: a,
            end: if b < len {
                b
            } else {
                (len - 1) as u64
            },
        }),
        range_of(
            Some("bytes="@ + (number::decimal(a as nat) + "-"@)),
            len,
        ) == (ByteRange::Part { start: a, end: (len - 1) as u64 }),
{
    lemma_read_interval(a, b, len);
}

/// How a range is read that has a start.
proof fn lemma_read_interval(a: u64, b: u64, len: u64)
    ensures
        range_of(
            Some("bytes="@ + (number::decimal(a as nat) + "-"@ + number::decimal(b as nat))),
            len,
        ) == if a >= len || b < a {
            ByteRange::Unsatisfiable
        } else {
            ByteRange::Part {
                start: a,
                end: if b < len {
                    b
                } else {
                    (len - 1) as u64
                },
            }
        },
        range_of(Some("bytes="@ + (number::decimal(a as nat) + "-"@)), len) == if a >= len {
            ByteRange::Unsatisfiable
        } else {
            ByteRange::Part { start: a, end: (len - 1) as u64 }
        },
{
    let da = number::decimal(a as nat);
    let db = number::decimal(b as nat);
    let none = Seq::<char>::empty();
    reveal_strlit("-");
    lemma_numeral(a as nat);
    lemma_numeral(b as nat);
    number::law_numeral_round_trip(a as nat, u64::MAX as nat);
    number::law_numeral_round_trip(b as nat, u64::MAX as nat);
    let closed = da + "-"@ + db;
    assert(closed.last() == db.last());
    assert(closed[0] == da[0]);
    assert forall|i: int| 0 <= i < closed.len() implies #[trigger] closed[i] != ',' by {
        if i < da.len() {
            assert(closed[i] == da[i]);
        } else if i > da.len() {
            assert(closed[i] == db[i - da.len() - 1]);
        }
    }
    lemma_one_range(closed, len);
    lemma_first_hyphen(a as nat, db);
    let open = da + "-"@;
    assert(open.last() == '-');
    assert(open[0] == da[0]);
    assert forall|i: int| 0 <= i < open.len() implies #[trigger] open[i] != ',' by {
        if i < da.len() {
            assert(open[i] == da[i]);
        }
    }
    lemma_one_range(open, len);
    lemma_first_hyphen(a as nat, none);
    assert(da + "-"@ + none =~= open);
}

/// A request for the last `n` bytes is given them, or the whole file where it
/// is shorter.
pub proof fn law_the_end_of_the_file_is_given(n: u64, len: u64)
    requires
        n > 0,
        len > 0,
    ensures
        range_of(Some("bytes="@ + ("-"@ + number::decimal(n as nat))), len) == (ByteRange::Part {
            start: if n < len {
                (len - n) as u64
            } else {
                0
            },
            end: (len - 1) as u64,
        }),
{
    lemma_read_suffix(n, len);
}

/// How a range is read that has no start.
proof fn lemma_read_suffix(n: u64, len: u64)
    ensures
        range_of(Some("bytes="@ + ("-"@ + number::decimal(n as nat))), len) == if n == 0 || len
            == 0 {
            ByteRange::Unsatisfiable
        } else {
            ByteRange::Part {
                start: if n < len {
                    (len - n) as u64
                } else {
                    0
                },
                end: (len - 1) as u64,
            }
        },
{
    let d = number::decimal(n as nat);
    let spec = "-"@ + d;
    reveal_strlit("-");
    lemma_numeral(n as nat);
    number::law_numeral_round_trip(n as nat, u64::MAX as nat);
    assert(spec.last() == d.last());
    assert forall|i: int| 0 <= i < spec.len() implies #[trigger] spec[i] != ',' by {
        if i > 0 {
            assert(spec[i] == d[i - 1]);
        }
    }
    lemma_one_range(spec, len);
    assert(spec.subrange(1, spec.len() as int) =~= d);
}

/// A range that starts behind the end of the file, that ends before it starts,
/// or that asks for the last bytes and for none of them, is refused; so is every
/// range of an empty file.
pub proof fn law_ranges_outside_the_file_are_refused(a: u64, b: u64, len: u64)
    ensures
        a >= len || b < a ==> range_of(
            Some("bytes="@ + (number::decimal(a as nat) + "-"@ + number::decimal(b as nat))),
            len,
        ) is Unsatisfiable,
        a >= len ==> range_of(
            Some("bytes="@ + (number::decimal(a as nat) + "-"@)),
            len,
        ) is Unsatisfiable,
        range_of(Some("bytes="@ + ("-"@ + number::decimal(0))), len) is Unsatisfiable,
        range_of(Some("bytes="@ + ("-"@ + number::decimal(a as nat))), 0) is Unsatisfiable,
{
    lemma_read_interval(a, b, len);
    lemma_read_suffix(0, len);
    lemma_read_suffix(a, 0);
}

/// Text behind `bytes=` that has no hyphen, or anything but a numeral in front
/// of the first one or behind it, is no range of a file.
pub proof fn law_malformed_ranges_are_refused(first: Seq<char>, last: Seq<char>, len: u64)
    requires
        first.len() > 0,
        last.len() > 0,
        text::is_graphic(first.last()),
        text::is_graphic(last.last()),
        forall|i: int| 0 <= i < first.len() ==> #[trigger] first[i] != ',' && first[i] != '-',
        forall|i: int| 0 <= i < last.len() ==> #[trigger] last[i] != ',',
    ensures
        range_of(Some("bytes="@ + first), len) is Unsatisfiable,
        range_of(Some("bytes="@), len) is Unsatisfiable,
        number::unsigned(first, u64::MAX as nat) is None ==> range_of(
            Some("bytes="@ + (first + "-"@ + last)),
            len,
        ) is Unsatisfiable,
        number::unsigned(last, u64::MAX as nat) is None ==> range_of(
            Some("bytes="@ + (first + "-"@ + last)),
            len,
        ) is Unsatisfiable && range_of(Some("bytes="@ + ("-"@ + last)), len) is Unsatisfiable,
{
    reveal_strlit("-");
    let none = Seq::<char>::empty();
    lemma_one_range(first, len);
    text::lemma_find_char_from(first, '-', 0);
    lemma_one_range(none, len);
    assert("bytes="@ + none =~= "bytes="@);
    assert(text::find_char_from(none, '-', 0) is None);
    let spec = first + "-"@ + last;
    assert(spec.last() == last.last());
    assert(spec[0] == first[0]);
    assert forall|i: int| 0 <= i < spec.len() implies #[trigger] spec[i] != ',' by {
        if i < first.len() {
            assert(spec[i] == first[i]);
        } else if i > first.len() {
            assert(spec[i] == last[i - first.len() - 1]);
        }
    }
    lemma_one_range(spec, len);
    assert forall|k: int| 0 <= k < first.len() implies #[trigger] spec[k] != '-' by {
        assert(spec[k] == first[k]);
    }
    text::lemma_char_at(spec, '-', 0, first.len() as int);
    assert(spec.subrange(0, first.len() as int) =~= first);
    assert(spec.subrange((first.len() + 1) as int, spec.len() as int) =~= last);
    let end = "-"@ + last;
    assert(end.last() == last.last());
    assert forall|i: int| 0 <= i < end.len() implies #[trigger] end[i] != ',' by {
        if i > 0 {
            assert(end[i] == last[i - 1]);
        }
    }
    lemma_one_range(end, len);
    assert(end.subrange(1, end.len() as int) =~= last);
}

/// The whole file is given without a `Range` header, for a header that is not
/// about bytes, and for one with more than one range.
pub proof fn law_other_headers_ask_for_the_whole_file(h: Seq<char>, len: u64)
    requires
        text::is_tight(h),
    ensures
        range_of(None, len) is Full,
        !text::starts_with(h, "bytes="@) ==> range_of(Some(h), len) is Full,
        text::starts_with(h, "bytes="@) && (exists|i: int|
            6 <= i < h.len() && #[trigger] h[i] == ',') ==> range_of(Some(h), len) is Full,
{
    reveal_strlit("bytes=");
    text::lemma_tight_is_trimmed(h);
    if text::starts_with(h, "bytes="@) {
        let spec = h.subrange(6, h.len() as int);
        text::lemma_find_char_from(spec, ',', 0);
        assert forall|i: int| 6 <= i < h.len() implies #[trigger] h[i] == spec[i - 6] by {}
    }
}

/// Blanks around a `Range` header make no difference.
pub proof fn law_blanks_around_a_range_do_not_count(
    before: Seq<char>,
    h: Seq<char>,
    after: Seq<char>,
    len: u64,
)
    requires
        text::all_blank(before),
        text::all_blank(after),
    ensures
        range_of(Some(before + h + after), len) == range_of(Some(h), len),
{
    text::law_trimming_blanks_changes_nothing(before, h, after);
}

/// A request for the bytes from `a` to `b` of a file that holds them is answered
/// with status 206, with where they stand in the file and how many they are, and
/// with just these bytes; to `HEAD` the bytes are not sent.
pub proof fn law_parts_are_served(a: u64, b: u64, len: u64)
    requires
        a <= b,
        b < len,
    ensures
        ({
            let header = "bytes="@ + (number::decimal(a as nat) + "-"@ + number::decimal(
                b as nat,
            ));
            let plan = plan_of(Some(header), len, false);
            &&& plan.status == 206
            &&& plan.content_length == Some((b - a + 1) as u64)
            &&& plan.content_range == Some(
                "bytes "@ + number::decimal(a as nat) + "-"@ + number::decimal(b as nat) + "/"@
                    + number::decimal(len as nat),
            )
            &&& plan.send == Some((a, (b - a + 1) as u64))
            &&& plan_of(Some(header), len, true) == (Plan { send: None, ..plan })
        }),
{
    law_ranges_in_the_file_are_given(a, b, len);
}

/// A request without a range is answered with status 200 and the whole file,
/// and one for bytes behind the end with status 416, the length of the file and
/// no bytes.
pub proof fn law_whole_files_are_served(a: u64, len: u64)
    ensures
        plan_of(None, len, false) == (Plan {
            status: 200,
            content_length: Some(len),
            content_range: None,
            send: Some((0, len)),
        }),
        plan_of(None, len, true).send is None,
        a >= len ==> ({
            let plan = plan_of(
                Some("bytes="@ + (number::decimal(a as nat) + "-"@)),
                len,
                false,
            );
            &&& plan.status == 416
            &&& plan.content_length is None
            &&& plan.content_range == Some("bytes */"@ + number::decimal(len as nat))
            &&& plan.send is None
        }),
{
    law_ranges_outside_the_file_are_refused(a, a, len);
}

} // verus!
