//! JSON Lines framing: one serialized record per line.
use vstd::prelude::*;
use vstd::utf8::decode_utf8;

verus! {

// ---------------------------------------------------------------------------
// Writing.
/// The bytes of a JSON Lines document: each record followed by a newline byte.
pub open spec fn jsonl_framing(records: Seq<Seq<u8>>) -> Seq<u8>
    decreases records.len(),
{
    if records.len() == 0 {
        Seq::empty()
    } else {
        jsonl_framing(records.drop_last()) + records.last() + seq![10u8]
    }
}

/// The byte contents of each record.
pub open spec fn record_bytes(records: Seq<Vec<u8>>) -> Seq<Seq<u8>> {
    records.map_values(|r: Vec<u8>| r@)
}

/// Write records, each already serialized as one line of JSON, in JSON Lines format and
/// return the bytes.
pub fn write_jsonl(records: &[Vec<u8>]) -> (buffer: Vec<u8>)
    ensures
        buffer@ == jsonl_framing(record_bytes(records@)),
{
    let mut buffer: Vec<u8> = Vec::new();
    let n = records.len();
    for i in 0..n
        invariant
            n == records@.len(),
            buffer@ == jsonl_framing(record_bytes(records@).take(i as int)),
    {
        let ghost before = buffer@;
        buffer.extend_from_slice(records[i].as_slice());
        buffer.push(10u8);
        proof {
            let rs = record_bytes(records@);
            assert(rs.take(i + 1).drop_last() =~= rs.take(i as int));
            assert(rs.take(i + 1).last() == records@[i as int]@);
            assert(buffer@ =~= before + rs.take(i + 1).last() + seq![10u8]);
        }
    }
    proof {
        assert(record_bytes(records@).take(n as int) =~= record_bytes(records@));
    }
    buffer
}

// ---------------------------------------------------------------------------
// Reading.
/// Whether `c` has the Unicode `White_Space` property, the test of `char::is_whitespace`:
/// the 25 code points U+0009..=U+000D, U+0020, U+0085, U+00A0, U+1680, U+2000..=U+200A,
/// U+2028, U+2029, U+202F, U+205F and U+3000.
pub open spec fn is_white_space(c: char) -> bool {
    let u = c as u32;
    ||| 0x9 <= u <= 0xd
    ||| u == 0x20
    ||| u == 0x85
    ||| u == 0xa0
    ||| u == 0x1680
    ||| 0x2000 <= u <= 0x200a
    ||| u == 0x2028
    ||| u == 0x2029
    ||| u == 0x202f
    ||| u == 0x205f
    ||| u == 0x3000
}

/// Whether `c` is white space, as `char::is_whitespace` answers.
fn char_is_whitespace(c: char) -> (r: bool)
    ensures
        r == is_white_space(c),
{
    let u = c as u32;
    (0x9 <= u && u <= 0xd) || u == 0x20 || u == 0x85 || u == 0xa0 || u == 0x1680 || (0x2000
        <= u && u <= 0x200a) || u == 0x2028 || u == 0x2029 || u == 0x202f || u == 0x205f || u
        == 0x3000
}

/// `String::push`: appends one character.
#[verifier::external_body]
pub(crate) fn string_push(s: &mut String, c: char)
    ensures
        final(s)@ == old(s)@.push(c),
{
    s.push(c);
}

/// `l` without its leading white space.
pub open spec fn trim_start(l: Seq<char>) -> Seq<char>
    decreases l.len(),
{
    if l.len() > 0 && is_white_space(l[0]) {
        trim_start(l.drop_first())
    } else {
        l
    }
}

/// `l` without its trailing white space.
pub open spec fn trim_end(l: Seq<char>) -> Seq<char>
    decreases l.len(),
{
    if l.len() > 0 && is_white_space(l.last()) {
        trim_end(l.drop_last())
    } else {
        l
    }
}

/// `l` without leading and trailing white space, as `str::trim` gives it.
pub open spec fn trimmed(l: Seq<char>) -> Seq<char> {
    trim_end(trim_start(l))
}

/// The record a line contributes: its trimmed text, unless that is empty.
pub open spec fn line_record(l: Seq<char>) -> Seq<Seq<char>> {
    if trimmed(l).len() > 0 {
        seq![trimmed(l)]
    } else {
        Seq::empty()
    }
}

/// The texts of a sequence of strings.
pub open spec fn string_texts(v: Seq<String>) -> Seq<Seq<char>> {
    v.map_values(|s: String| s@)
}

/// Appends the record of `line` (if it has one) to `out`.
pub(crate) fn finish_line(line: &Vec<char>, out: &mut Vec<String>)
    ensures
        string_texts(final(out)@) == string_texts(old(out)@) + line_record(line@),
{
    let n = line.len();
    assert(line@.subrange(0, n as int) =~= line@);
    let mut start: usize = 0;
    while start < n && char_is_whitespace(line[start])
        invariant
            start <= n,
            n == line@.len(),
            trim_start(line@) == trim_start(line@.subrange(start as int, n as int)),
        decreases n - start,
    {
        assert(line@.subrange(start as int, n as int).drop_first() =~= line@.subrange(
            start + 1,
            n as int,
        ));
        start += 1;
    }
    assert(trim_start(line@.subrange(start as int, n as int)) == line@.subrange(
        start as int,
        n as int,
    ));
    let mut end: usize = n;
    while end > start && char_is_whitespace(line[end - 1])
        invariant
            start <= end <= n,
            n == line@.len(),
            trimmed(line@) == trim_end(line@.subrange(start as int, end as int)),
        decreases end,
    {
        assert(line@.subrange(start as int, end as int).drop_last() =~= line@.subrange(
            start as int,
            end - 1,
        ));
        end -= 1;
    }
    assert(trimmed(line@) == line@.subrange(start as int, end as int));
    if end > start {
        let mut text = String::new();
        let mut k: usize = start;
        while k < end
            invariant
                start <= k <= end <= n,
                n == line@.len(),
                text@ == line@.subrange(start as int, k as int),
            decreases end - k,
        {
            string_push(&mut text, line[k]);
            assert(text@ =~= line@.subrange(start as int, k + 1));
            k += 1;
        }
        let ghost before = out@;
        out.push(text);
        assert(string_texts(out@) =~= string_texts(before) + line_record(line@));
    } else {
        assert(string_texts(out@) =~= string_texts(out@) + line_record(line@));
    }
}

// ---------------------------------------------------------------------------
// Reading lines of bytes.
/// A line ended by a newline loses a carriage return before it (a `\r\n` ending).
pub open spec fn without_cr(l: Seq<u8>) -> Seq<u8> {
    if l.len() > 0 && l.last() == 13 {
        l.drop_last()
    } else {
        l
    }
}

/// Reading bytes from the start: the lines that a newline has ended (without the newline, or
/// the `\r\n`), and the bytes of the line still open.
pub open spec fn byte_line_scan(d: Seq<u8>) -> (Seq<Seq<u8>>, Seq<u8>)
    decreases d.len(),
{
    if d.len() == 0 {
        (Seq::empty(), Seq::empty())
    } else {
        let (done, open) = byte_line_scan(d.drop_last());
        if d.last() == 10 {
            (done.push(without_cr(open)), Seq::empty())
        } else {
            (done, open.push(d.last()))
        }
    }
}

/// The lines of `d` as `BufRead::lines` gives them: split at each newline, each without its
/// `\n` or `\r\n` ending, and a last line after the last newline only where it is not empty.
pub open spec fn byte_lines(d: Seq<u8>) -> Seq<Seq<u8>> {
    if byte_line_scan(d).1.len() > 0 {
        byte_line_scan(d).0.push(byte_line_scan(d).1)
    } else {
        byte_line_scan(d).0
    }
}

/// The records of lines of UTF-8 text: each line's text trimmed of white space, with the lines
/// left empty skipped.
pub open spec fn byte_records(ls: Seq<Seq<u8>>) -> Seq<Seq<char>>
    decreases ls.len(),
{
    if ls.len() == 0 {
        Seq::empty()
    } else {
        byte_records(ls.drop_last()) + line_record(decode_utf8(ls.last()))
    }
}

// ---------------------------------------------------------------------------
// Reading what was written.
/// A line fit to be framed: no newline byte in it, and no carriage return at its end (as the
/// compact serialization of a JSON value is).
pub open spec fn fit_line(l: Seq<u8>) -> bool {
    &&& !l.contains(10u8)
    &&& !(l.len() > 0 && l.last() == 13u8)
}

/// Scanning a line without newlines after a finished prefix leaves it open.
proof fn lemma_scan_open_line(t: Seq<u8>, l: Seq<u8>)
    requires
        byte_line_scan(t).1 == Seq::<u8>::empty(),
        !l.contains(10u8),
    ensures
        byte_line_scan(t + l) == (byte_line_scan(t).0, l),
    decreases l.len(),
{
    if l.len() == 0 {
        assert(t + l =~= t);
    } else {
        assert((t + l).drop_last() =~= t + l.drop_last());
        assert(!l.drop_last().contains(10u8)) by {
            if l.drop_last().contains(10u8) {
                let k = choose|k: int| 0 <= k < l.drop_last().len() && l.drop_last()[k] == 10u8;
                assert(l[k] == 10u8);
            }
        }
        lemma_scan_open_line(t, l.drop_last());
        assert(l[l.len() - 1] != 10u8);
        assert(l.drop_last().push(l.last()) =~= l);
    }
}

/// Scanning the framing of fit lines finishes each line and leaves none open.
proof fn lemma_scan_framed(lines: Seq<Seq<u8>>)
    requires
        forall|i: int| 0 <= i < lines.len() ==> fit_line(#[trigger] lines[i]),
    ensures
        byte_line_scan(jsonl_framing(lines)) == (lines, Seq::<u8>::empty()),
    decreases lines.len(),
{
    if lines.len() > 0 {
        let init = lines.drop_last();
        let l = lines.last();
        assert forall|i: int| 0 <= i < init.len() implies fit_line(#[trigger] init[i]) by {
            assert(init[i] == lines[i]);
        }
        lemma_scan_framed(init);
        assert(fit_line(lines[lines.len() - 1]));
        let t = jsonl_framing(init);
        lemma_scan_open_line(t, l);
        let full = t + l + seq![10u8];
        assert(full.drop_last() =~= t + l);
        assert(full.last() == 10u8);
        assert(without_cr(l) == l);
        assert(init.push(l) =~= lines);
    }
}

/// Reading the lines of what `write_jsonl` writes gives back the records written, for records
/// fit to be framed.
pub proof fn law_jsonl_round_trip(records: Seq<Seq<u8>>)
    requires
        forall|i: int| 0 <= i < records.len() ==> fit_line(#[trigger] records[i]),
    ensures
        byte_lines(jsonl_framing(records)) == records,
{
    lemma_scan_framed(records);
}

} // verus!
