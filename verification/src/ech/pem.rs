//! PEM blocks.
//!
//! A block is a line `-----BEGIN label-----`, lines of Base64 and a line
//! `-----END label-----`. White space around lines and empty lines are ignored.

use vstd::prelude::*;
use vstd::utf8::*;

use crate::base64::base64_decode;
use crate::base64::base64_encode;
use crate::base64::decode_text;
use crate::base64::is_base64_char;
use crate::base64::encode_text;
use crate::base64::lemma_base64_chars;
use crate::base64::lemma_base64_roundtrip;
use crate::base64::Base64Error;
use crate::bytes::copy_of;
use crate::text::char_vec;
use crate::text::chars_of;
use crate::text::is_white_space;
use crate::text::lemma_trim_around;
use crate::text::lemma_trim_same;
use crate::text::occurs_at;
use crate::text::same_chars;
use crate::text::stands_at;
use crate::text::string_of;
use crate::text::text_of_utf8;
use crate::text::trim;
use crate::text::trim_bounds;

verus! {

/// Why a file holds no sequence of PEM blocks.
#[derive(Clone, Copy, Debug, PartialEq, Eq, Structural)]
pub enum PemError {
    /// The file is not valid UTF-8.
    NotUtf8,
    /// A line outside blocks is no begin marker.
    ExpectedBegin,
    /// A block has no end marker.
    MissingEnd,
    /// The body of a block is no Base64.
    BadBase64(Base64Error),
}

/// A PEM block.
pub struct PemBlock {
    pub label: Vec<char>,
    pub body: Vec<u8>,
}

/// What a PEM block holds: its label and its body.
pub type BlockView = (Seq<char>, Seq<u8>);

impl View for PemBlock {
    type V = (Seq<char>, Seq<u8>);

    open spec fn view(&self) -> (Seq<char>, Seq<u8>) {
        (self.label@, self.body@)
    }
}

/// What the blocks in `v` hold.
pub open spec fn block_views(v: Seq<PemBlock>) -> Seq<BlockView> {
    Seq::new(v.len(), |i: int| v[i]@)
}

/// The texts in `v`.
pub open spec fn texts(v: Seq<Vec<char>>) -> Seq<Seq<char>> {
    Seq::new(v.len(), |i: int| v[i]@)
}

/// The number of characters before the first line break.
pub open spec fn line_len(text: Seq<char>) -> nat
    decreases text.len(),
{
    if text.len() == 0 || text[0] == '\n' {
        0
    } else {
        1 + line_len(text.skip(1))
    }
}

/// The lines of `text` without the white space around them, as far as they are
/// not empty then.
pub open spec fn trimmed_lines(text: Seq<char>) -> Seq<Seq<char>>
    decreases text.len(),
{
    if text.len() == 0 {
        Seq::empty()
    } else {
        let n = line_len(text) as int;
        let line = trim(text.take(n));
        let rest = if n < text.len() {
            trimmed_lines(text.skip(n + 1))
        } else {
            Seq::empty()
        };
        if line.len() == 0 {
            rest
        } else {
            seq![line] + rest
        }
    }
}

/// How a begin marker starts.
pub open spec fn begin_mark() -> Seq<char> {
    seq!['-', '-', '-', '-', '-', 'B', 'E', 'G', 'I', 'N', ' ']
}

/// How an end marker starts.
pub open spec fn end_mark() -> Seq<char> {
    seq!['-', '-', '-', '-', '-', 'E', 'N', 'D', ' ']
}

/// How both markers end.
pub open spec fn dashes() -> Seq<char> {
    seq!['-', '-', '-', '-', '-']
}

/// The label of a begin marker.
pub open spec fn begin_label(line: Seq<char>) -> Option<Seq<char>> {
    if occurs_at(line, begin_mark(), 0) && line.len() >= 16 && occurs_at(
        line,
        dashes(),
        line.len() - 5,
    ) {
        Some(line.subrange(11, line.len() - 5))
    } else {
        None
    }
}

/// The end marker for a label.
pub open spec fn end_marker(label: Seq<char>) -> Seq<char> {
    end_mark() + label + dashes()
}

/// The number of lines before the first that is `marker`.
pub open spec fn lines_before(lines: Seq<Seq<char>>, marker: Seq<char>) -> Option<int>
    decreases lines.len(),
{
    if lines.len() == 0 {
        None
    } else if lines[0] == marker {
        Some(0)
    } else {
        match lines_before(lines.skip(1), marker) {
            None => None,
            Some(k) => Some(k + 1),
        }
    }
}

/// `lines_before` counts the lines before the first that is `marker`.
pub proof fn lemma_lines_before(lines: Seq<Seq<char>>, marker: Seq<char>)
    ensures
        match lines_before(lines, marker) {
            Some(k) => 0 <= k < lines.len() && lines[k] == marker && forall|i: int|
                0 <= i < k ==> lines[i] != marker,
            None => forall|i: int| 0 <= i < lines.len() ==> lines[i] != marker,
        },
    decreases lines.len(),
{
    if lines.len() > 0 && lines[0] != marker {
        let t = lines.skip(1);
        lemma_lines_before(t, marker);
        assert forall|i: int| 0 < i < lines.len() implies lines[i] == t[i - 1] by {}
        match lines_before(t, marker) {
            Some(k) => {
                assert(lines[k + 1] == t[k]);
                assert forall|i: int| 0 <= i < k + 1 implies lines[i] != marker by {
                    if i > 0 {
                        assert(lines[i] == t[i - 1]);
                    }
                }
            },
            None => {
                assert forall|i: int| 0 <= i < lines.len() implies lines[i] != marker by {
                    if i > 0 {
                        assert(lines[i] == t[i - 1]);
                    }
                }
            },
        }
    }
}

/// The lines one after the other.
pub open spec fn joined(lines: Seq<Seq<char>>) -> Seq<char>
    decreases lines.len(),
{
    if lines.len() == 0 {
        Seq::empty()
    } else {
        joined(lines.drop_last()) + lines.last()
    }
}

/// `done` followed by the blocks of a result.
pub open spec fn prepend(
    done: Seq<BlockView>,
    more: Result<Seq<BlockView>, PemError>,
) -> Result<Seq<BlockView>, PemError> {
    match more {
        Ok(blocks) => Ok(done + blocks),
        Err(e) => Err(e),
    }
}

/// The blocks that a sequence of lines holds.
pub open spec fn blocks_of_lines(lines: Seq<Seq<char>>) -> Result<Seq<BlockView>, PemError>
    decreases lines.len(),
{
    if lines.len() == 0 {
        Ok(Seq::empty())
    } else {
        match begin_label(lines[0]) {
            None => Err(PemError::ExpectedBegin),
            Some(label) => match lines_before(lines.skip(1), end_marker(label)) {
                None => Err(PemError::MissingEnd),
                Some(k) => match base64_decode(joined(lines.subrange(1, 1 + k))) {
                    Err(e) => Err(PemError::BadBase64(e)),
                    Ok(body) => {
                        proof {
                            lemma_lines_before(lines.skip(1), end_marker(label));
                        }
                        prepend(seq![(label, body)], blocks_of_lines(lines.skip(k + 2)))
                    },
                },
            },
        }
    }
}

/// The blocks that a file holds.
pub open spec fn pem_blocks(bytes: Seq<u8>) -> Result<Seq<BlockView>, PemError> {
    if !valid_utf8(bytes) {
        Err(PemError::NotUtf8)
    } else {
        blocks_of_lines(trimmed_lines(decode_utf8(bytes)))
    }
}

/// The lines of `text` without the white space around them, as far as they are
/// not empty then.
fn split_lines(text: &[char]) -> (r: Vec<Vec<char>>)
    ensures
        texts(r@) == trimmed_lines(text@),
{
    let end: usize = text.len();
    let mut r: Vec<Vec<char>> = Vec::new();
    let mut i: usize = 0;
    assert(text@.skip(0) =~= text@);
    assert(texts(r@) + trimmed_lines(text@) =~= trimmed_lines(text@));
    while i < end
        invariant
            end == text@.len(),
            i <= end,
            texts(r@) + trimmed_lines(text@.skip(i as int)) == trimmed_lines(text@),
        decreases end - i,
    {
        let ghost rest = text@.skip(i as int);
        let mut j: usize = i;
        while j < end && text[j] != '\n'
            invariant
                end == text@.len(),
                i <= j <= end,
                rest == text@.skip(i as int),
                line_len(rest) == (j - i) + line_len(text@.skip(j as int)),
            decreases end - j,
        {
            proof {
                let cur = text@.skip(j as int);
                assert(cur[0] == text@[j as int]);
                assert(cur.skip(1) =~= text@.skip(j + 1));
            }
            j = j + 1;
        }
        proof {
            let cur = text@.skip(j as int);
            if j < end {
                assert(cur[0] == text@[j as int]);
            }
            assert(line_len(cur) == 0);
            assert(rest.take(j - i) =~= text@.subrange(i as int, j as int));
        }
        let (a, b) = trim_bounds(text, i, j);
        let ghost before = texts(r@);
        let next: usize = if j < end {
            j + 1
        } else {
            end
        };
        proof {
            if j < end {
                assert(rest.skip(j - i + 1) =~= text@.skip(next as int));
            } else {
                assert(text@.skip(next as int) =~= Seq::empty());
            }
        }
        if a < b {
            let line = char_vec(text, a, b);
            r.push(line);
            assert(texts(r@) =~= before.push(line@));
            assert(texts(r@) + trimmed_lines(text@.skip(next as int)) =~= before + (seq![line@]
                + trimmed_lines(text@.skip(next as int))));
        }
        i = next;
    }
    assert(text@.skip(i as int) =~= Seq::empty());
    assert(texts(r@) + Seq::<Seq<char>>::empty() =~= texts(r@));
    r
}

/// The label of a begin marker.
fn label_of(line: &[char]) -> (r: Option<Vec<char>>)
    ensures
        match r {
            Some(label) => begin_label(line@) == Some(label@),
            None => begin_label(line@) is None,
        },
{
    let mark: [char; 11] = ['-', '-', '-', '-', '-', 'B', 'E', 'G', 'I', 'N', ' '];
    let tail: [char; 5] = ['-', '-', '-', '-', '-'];
    assert(mark@ =~= begin_mark());
    assert(tail@ =~= dashes());
    let n: usize = line.len();
    if stands_at(line, &mark, 0) && n >= 16 && stands_at(line, &tail, n - 5) {
        Some(char_vec(line, 11, n - 5))
    } else {
        None
    }
}

/// The end marker for a label.
fn marker_of(label: &Vec<char>) -> (r: Vec<char>)
    ensures
        r@ == end_marker(label@),
{
    let mark: [char; 9] = ['-', '-', '-', '-', '-', 'E', 'N', 'D', ' '];
    let tail: [char; 5] = ['-', '-', '-', '-', '-'];
    assert(mark@ =~= end_mark());
    assert(tail@ =~= dashes());
    let mut r = char_vec(&mark, 0, 9);
    let mut l = char_vec(label, 0, label.len());
    let mut t = char_vec(&tail, 0, 5);
    assert(l@ =~= label@);
    r.append(&mut l);
    r.append(&mut t);
    assert(r@ =~= end_marker(label@));
    r
}

/// The number of lines in `lines[from..]` before the first that is `marker`.
fn count_before(lines: &Vec<Vec<char>>, from: usize, marker: &Vec<char>) -> (r: Option<usize>)
    requires
        from <= lines@.len(),
    ensures
        match r {
            Some(k) => lines_before(texts(lines@).skip(from as int), marker@) == Some(k as int),
            None => lines_before(texts(lines@).skip(from as int), marker@) is None,
        },
    decreases lines@.len() - from,
{
    let ghost all = texts(lines@);
    let ghost cur = all.skip(from as int);
    if from == lines.len() {
        return None;
    }
    assert(cur[0] == lines@[from as int]@);
    if same_chars(&lines[from], marker) {
        return Some(0);
    }
    assert(cur.skip(1) =~= all.skip(from + 1));
    let next = count_before(lines, from + 1, marker);
    match next {
        None => None,
        Some(k) => {
            proof {
                lemma_lines_before(all.skip(from + 1), marker@);
            }
            Some(k + 1)
        },
    }
}

/// The lines `lines[from..to]` one after the other.
fn join(lines: &Vec<Vec<char>>, from: usize, to: usize) -> (r: Vec<char>)
    requires
        from <= to <= lines@.len(),
    ensures
        r@ == joined(texts(lines@).subrange(from as int, to as int)),
{
    let ghost all = texts(lines@);
    let mut r: Vec<char> = Vec::new();
    let mut i: usize = from;
    assert(all.subrange(from as int, from as int) =~= Seq::empty());
    while i < to
        invariant
            from <= i <= to <= lines@.len(),
            all == texts(lines@),
            r@ == joined(all.subrange(from as int, i as int)),
        decreases to - i,
    {
        let mut l = char_vec(&lines[i], 0, lines[i].len());
        assert(l@ =~= lines@[i as int]@);
        r.append(&mut l);
        proof {
            let next = all.subrange(from as int, i + 1);
            assert(next.drop_last() =~= all.subrange(from as int, i as int));
            assert(next.last() == lines@[i as int]@);
        }
        i = i + 1;
    }
    r
}

/// The blocks of a file.
pub fn parse_pem_blocks(bytes: &[u8]) -> (r: Result<Vec<PemBlock>, PemError>)
    ensures
        match r {
            Ok(blocks) => pem_blocks(bytes@) == Ok::<_, PemError>(block_views(blocks@)),
            Err(e) => pem_blocks(bytes@) == Err::<Seq<BlockView>, _>(e),
        },
{
    let copy = copy_of(bytes, 0, bytes.len());
    assert(copy@ =~= bytes@);
    let text = match text_of_utf8(copy) {
        None => return Err(PemError::NotUtf8),
        Some(s) => s,
    };
    let lines = split_lines(&chars_of(&text));
    let ghost all = texts(lines@);
    let mut out: Vec<PemBlock> = Vec::new();
    let mut i: usize = 0;
    proof {
        assert(all.skip(0) =~= all);
        let result = blocks_of_lines(all);
        if let Ok(blocks) = result {
            assert(block_views(out@) + blocks =~= blocks);
        }
        assert(prepend(block_views(out@), blocks_of_lines(all.skip(0))) == result);
    }
    while i < lines.len()
        invariant
            i <= lines@.len(),
            all == texts(lines@),
            prepend(block_views(out@), blocks_of_lines(all.skip(i as int))) == blocks_of_lines(all),
            pem_blocks(bytes@) == blocks_of_lines(all),
        decreases lines@.len() - i,
    {
        let ghost cur = all.skip(i as int);
        assert(cur[0] == lines@[i as int]@);
        let label = match label_of(&lines[i]) {
            None => return Err(PemError::ExpectedBegin),
            Some(l) => l,
        };
        let marker = marker_of(&label);
        assert(cur.skip(1) =~= all.skip(i + 1));
        proof {
            lemma_lines_before(cur.skip(1), marker@);
        }
        let k: usize = match count_before(&lines, i + 1, &marker) {
            None => return Err(PemError::MissingEnd),
            Some(k) => k,
        };
        assert(cur.subrange(1, 1 + k) =~= all.subrange(i + 1, i + 1 + k));
        let b64 = join(&lines, i + 1, i + 1 + k);
        let text = string_of(&b64, 0, b64.len());
        assert(text@ =~= b64@);
        let body = match decode_text(&text) {
            Err(e) => return Err(PemError::BadBase64(e)),
            Ok(b) => b,
        };
        assert(cur.skip(k + 2) =~= all.skip(i + k + 2));
        let ghost done = block_views(out@);
        let block = PemBlock { label, body };
        out.push(block);
        proof {
            assert(block_views(out@) =~= done.push(block@));
            let more = blocks_of_lines(all.skip(i + k + 2));
            if let Ok(blocks) = more {
                assert(done.push(block@) + blocks =~= done + (seq![block@] + blocks));
            }
        }
        i = i + k + 2;
    }
    proof {
        assert(all.skip(i as int) =~= Seq::empty());
        assert(block_views(out@) + Seq::<BlockView>::empty() =~= block_views(out@));
    }
    Ok(out)
}

/// The text in lines of 64 characters, the last of which may be shorter.
pub open spec fn wrapped(text: Seq<char>) -> Seq<char>
    decreases text.len(),
{
    if text.len() == 0 {
        Seq::empty()
    } else if text.len() <= 64 {
        text + seq!['\n']
    } else {
        text.take(64) + seq!['\n'] + wrapped(text.skip(64))
    }
}

/// The text of a block with the given label and body.
pub open spec fn block_text(label: Seq<char>, body: Seq<u8>) -> Seq<char> {
    begin_mark() + label + dashes() + seq!['\n'] + wrapped(base64_encode(body)) + end_marker(label)
        + seq!['\n']
}

/// Append `tail` to `out`.
fn append_text(out: &mut String, tail: &[char])
    ensures
        final(out)@ == old(out)@ + tail@,
{
    let mut i: usize = 0;
    assert(out@ =~= old(out)@ + tail@.take(0));
    while i < tail.len()
        invariant
            i <= tail@.len(),
            out@ == old(out)@ + tail@.take(i as int),
        decreases tail@.len() - i,
    {
        out.push(tail[i]);
        assert(tail@.take(i + 1) =~= tail@.take(i as int).push(tail@[i as int]));
        assert(out@ =~= old(out)@ + tail@.take(i + 1));
        i = i + 1;
    }
    assert(tail@.take(i as int) =~= tail@);
}

/// Append a block to `out`.
pub fn write_pem_block(out: &mut String, label: &str, body: &[u8])
    requires
        body@.len() <= usize::MAX / 4,
    ensures
        final(out)@ == old(out)@ + block_text(label@, body@),
{
    let mark: [char; 11] = ['-', '-', '-', '-', '-', 'B', 'E', 'G', 'I', 'N', ' '];
    let tail: [char; 5] = ['-', '-', '-', '-', '-'];
    assert(mark@ =~= begin_mark());
    assert(tail@ =~= dashes());
    let name = chars_of(label);
    let code = chars_of(&encode_text(body));
    let n: usize = code.len();
    append_text(out, &mark);
    append_text(out, &name);
    append_text(out, &tail);
    out.push('\n');
    let ghost head = out@;
    let mut i: usize = 0;
    proof {
        assert(code@.skip(0) =~= code@);
        assert(head + wrapped(code@.skip(0)) =~= head + wrapped(code@));
    }
    while i < n
        invariant
            n == code@.len(),
            i <= n,
            out@ + wrapped(code@.skip(i as int)) == head + wrapped(code@),
        decreases n - i,
    {
        let ghost rest = code@.skip(i as int);
        let ghost before = out@;
        let end: usize = if n - i <= 64 {
            n
        } else {
            i + 64
        };
        let line = char_vec(&code, i, end);
        append_text(out, &line);
        out.push('\n');
        proof {
            if n - i <= 64 {
                assert(line@ =~= rest);
                assert(code@.skip(end as int) =~= Seq::empty());
                assert(out@ + wrapped(code@.skip(end as int)) =~= before + (rest + seq!['\n']));
            } else {
                assert(line@ =~= rest.take(64));
                assert(rest.skip(64) =~= code@.skip(end as int));
                assert(out@ + wrapped(code@.skip(end as int)) =~= before + (rest.take(64)
                    + seq!['\n'] + wrapped(rest.skip(64))));
            }
        }
        i = end;
    }
    assert(code@.skip(i as int) =~= Seq::empty());
    assert(out@ =~= head + wrapped(code@));
    append_text(out, &marker_of(&name));
    out.push('\n');
    assert(out@ =~= old(out)@ + block_text(label@, body@));
}

/// Whether `s` is white space only.
pub open spec fn blank(s: Seq<char>) -> bool {
    forall|i: int| 0 <= i < s.len() ==> is_white_space(#[trigger] s[i])
}

/// The lines into which a text is wrapped.
pub open spec fn chunks(text: Seq<char>) -> Seq<Seq<char>>
    decreases text.len(),
{
    if text.len() == 0 {
        Seq::empty()
    } else if text.len() <= 64 {
        seq![text]
    } else {
        seq![text.take(64)] + chunks(text.skip(64))
    }
}

/// A line ends where its line break stands.
proof fn lemma_line_len(line: Seq<char>, rest: Seq<char>)
    requires
        !line.contains('\n'),
    ensures
        line_len(line + seq!['\n'] + rest) == line.len(),
    decreases line.len(),
{
    let text = line + seq!['\n'] + rest;
    if line.len() == 0 {
        assert(text[0] == '\n');
    } else {
        let t = line.skip(1);
        assert(line.contains(line[0]));
        assert(!t.contains('\n')) by {
            if t.contains('\n') {
                let i = choose|i: int| 0 <= i < t.len() && t[i] == '\n';
                assert(line[i + 1] == '\n');
            }
        }
        lemma_line_len(t, rest);
        assert(text[0] == line[0]);
        assert(text.skip(1) =~= t + seq!['\n'] + rest);
    }
}

/// A line without white space at its ends is one of the trimmed lines.
proof fn lemma_first_line(line: Seq<char>, rest: Seq<char>)
    requires
        line.len() > 0,
        !line.contains('\n'),
        !is_white_space(line[0]),
        !is_white_space(line.last()),
    ensures
        trimmed_lines(line + seq!['\n'] + rest) == seq![line] + trimmed_lines(rest),
{
    let text = line + seq!['\n'] + rest;
    lemma_line_len(line, rest);
    lemma_trim_same(line);
    assert(text.take(line.len() as int) =~= line);
    assert(text.skip(line.len() as int + 1) =~= rest);
}

/// White space in front of a text does not change its trimmed lines.
proof fn lemma_blank_front(gap: Seq<char>, rest: Seq<char>)
    requires
        blank(gap),
    ensures
        trimmed_lines(gap + rest) == trimmed_lines(rest),
    decreases gap.len(),
{
    if gap.len() == 0 {
        assert(gap + rest =~= rest);
    } else {
        let t = gap.skip(1);
        assert forall|i: int| 0 <= i < t.len() implies is_white_space(#[trigger] t[i]) by {
            assert(t[i] == gap[i + 1]);
        }
        lemma_blank_front(t, rest);
        let text = gap + rest;
        let tail = t + rest;
        assert(text.skip(1) =~= tail);
        assert(text[0] == gap[0]);
        if gap[0] == '\n' {
            assert(text.take(0) =~= Seq::empty());
            assert(trim(text.take(0)) =~= Seq::empty());
        } else {
            let n = line_len(tail) as int;
            lemma_line_len_bound(tail);
            assert(line_len(text) == n + 1);
            let line = text.take(n + 1);
            assert(line.skip(1) =~= tail.take(n));
            assert(line[0] == gap[0]);
            assert(trim(line) == trim(tail.take(n)));
            if n < tail.len() {
                assert(text.skip(n + 2) =~= tail.skip(n + 1));
            }
            if tail.len() == 0 {
                assert(tail.take(0) =~= Seq::empty());
                assert(trim(tail.take(0)) =~= Seq::empty());
            }
        }
    }
}

proof fn lemma_line_len_bound(text: Seq<char>)
    ensures
        line_len(text) <= text.len(),
    decreases text.len(),
{
    if text.len() > 0 && text[0] != '\n' {
        lemma_line_len_bound(text.skip(1));
    }
}

/// Wrapping a Base64 text gives its chunks as lines.
proof fn lemma_wrapped_lines(code: Seq<char>, rest: Seq<char>)
    requires
        forall|i: int| 0 <= i < code.len() ==> is_base64_char(#[trigger] code[i]),
    ensures
        trimmed_lines(wrapped(code) + rest) == chunks(code) + trimmed_lines(rest),
    decreases code.len(),
{
    if code.len() == 0 {
        assert(wrapped(code) + rest =~= rest);
        assert(chunks(code) + trimmed_lines(rest) =~= trimmed_lines(rest));
    } else if code.len() <= 64 {
        lemma_base64_line(code);
        lemma_first_line(code, rest);
    } else {
        let a = code.take(64);
        let b = code.skip(64);
        assert forall|i: int| 0 <= i < b.len() implies is_base64_char(#[trigger] b[i]) by {
            assert(b[i] == code[i + 64]);
        }
        lemma_wrapped_lines(b, rest);
        lemma_base64_line(a);
        lemma_first_line(a, wrapped(b) + rest);
        assert(wrapped(code) + rest =~= a + seq!['\n'] + (wrapped(b) + rest));
        assert(chunks(code) + trimmed_lines(rest) =~= seq![a] + (chunks(b) + trimmed_lines(rest)));
    }
}

/// A Base64 text is a line without white space.
proof fn lemma_base64_line(line: Seq<char>)
    requires
        line.len() > 0,
        forall|i: int| 0 <= i < line.len() ==> is_base64_char(#[trigger] line[i]),
    ensures
        !line.contains('\n'),
        !is_white_space(line[0]),
        !is_white_space(line.last()),
{
    assert(is_base64_char(line[0]));
    assert(is_base64_char(line[line.len() - 1]));
}

proof fn lemma_joined_front(line: Seq<char>, more: Seq<Seq<char>>)
    ensures
        joined(seq![line] + more) == line + joined(more),
    decreases more.len(),
{
    let all = seq![line] + more;
    if more.len() == 0 {
        assert(all.drop_last() =~= Seq::empty());
        assert(joined(all.drop_last()) =~= Seq::empty());
        assert(joined(all) =~= line + joined(more));
    } else {
        lemma_joined_front(line, more.drop_last());
        assert(all.drop_last() =~= seq![line] + more.drop_last());
        assert(all.last() == more.last());
        assert(joined(all) =~= line + joined(more));
    }
}

/// The chunks of a text, joined, are the text. None of them is empty, and all
/// characters in them are characters of the text.
proof fn lemma_chunks(text: Seq<char>)
    ensures
        joined(chunks(text)) == text,
        forall|i: int|
            0 <= i < chunks(text).len() ==> {
                let c = #[trigger] chunks(text)[i];
                c.len() > 0 && text.contains(c[0])
            },
    decreases text.len(),
{
    if text.len() == 0 {
        assert(joined(chunks(text)) =~= text);
    } else if text.len() <= 64 {
        assert(chunks(text).drop_last() =~= Seq::empty());
        assert(joined(chunks(text).drop_last()) =~= Seq::empty());
        assert(joined(chunks(text)) =~= text);
        assert(text.contains(text[0]));
    } else {
        let a = text.take(64);
        let b = text.skip(64);
        lemma_chunks(b);
        lemma_joined_front(a, chunks(b));
        assert(a + b =~= text);
        assert forall|i: int| 0 <= i < chunks(text).len() implies {
            let c = #[trigger] chunks(text)[i];
            c.len() > 0 && text.contains(c[0])
        } by {
            if i == 0 {
                assert(chunks(text)[0] == a);
                assert(a[0] == text[0]);
            } else {
                let c = chunks(b)[i - 1];
                assert(chunks(text)[i] == c);
                let k = choose|k: int| 0 <= k < b.len() && b[k] == c[0];
                assert(text[k + 64] == c[0]);
            }
        }
    }
}

/// The lines of a block are followed by those of what comes after it.
proof fn lemma_block_lines(label: Seq<char>, body: Seq<u8>, rest: Seq<char>)
    requires
        !label.contains('\n'),
    ensures
        trimmed_lines(block_text(label, body) + rest) == seq![begin_mark() + label + dashes()]
            + chunks(base64_encode(body)) + seq![end_marker(label)] + trimmed_lines(rest),
{
    let code = base64_encode(body);
    let first = begin_mark() + label + dashes();
    let last = end_marker(label);
    assert(!first.contains('\n')) by {
        if first.contains('\n') {
            let i = choose|i: int| 0 <= i < first.len() && first[i] == '\n';
            if 11 <= i < 11 + label.len() {
                assert(label[i - 11] == '\n');
            }
        }
    }
    assert(!last.contains('\n')) by {
        if last.contains('\n') {
            let i = choose|i: int| 0 <= i < last.len() && last[i] == '\n';
            if 9 <= i < 9 + label.len() {
                assert(label[i - 9] == '\n');
            }
        }
    }
    let t2 = last + seq!['\n'] + rest;
    let t1 = wrapped(code) + t2;
    assert(block_text(label, body) + rest =~= first + seq!['\n'] + t1);
    lemma_first_line(first, t1);
    lemma_base64_chars(body);
    lemma_wrapped_lines(code, t2);
    lemma_first_line(last, rest);
    assert(seq![first] + (chunks(code) + (seq![last] + trimmed_lines(rest))) =~= seq![first]
        + chunks(code) + seq![last] + trimmed_lines(rest));
}

/// The lines of a block are read as the block.
proof fn lemma_block_read(label: Seq<char>, body: Seq<u8>, more: Seq<Seq<char>>)
    ensures
        blocks_of_lines(
            seq![begin_mark() + label + dashes()] + chunks(base64_encode(body)) + seq![
                end_marker(label),
            ] + more,
        ) == prepend(seq![(label, body)], blocks_of_lines(more)),
{
    let code = base64_encode(body);
    let first = begin_mark() + label + dashes();
    let last = end_marker(label);
    let c = chunks(code);
    let lines = seq![first] + c + seq![last] + more;
    let n = first.len() as int;
    assert(first.subrange(0, 11) =~= begin_mark());
    assert(first.subrange(n - 5, n) =~= dashes());
    assert(first.subrange(11, n - 5) =~= label);
    assert(begin_label(lines[0]) == Some(label));
    let after = lines.skip(1);
    assert(after =~= c + seq![last] + more);
    lemma_base64_chars(body);
    lemma_base64_roundtrip(body);
    lemma_chunks(code);
    lemma_lines_before(after, last);
    let k = c.len() as int;
    assert(after[k] == last);
    assert forall|i: int| 0 <= i < k implies after[i] != last by {
        assert(after[i] == c[i]);
        let j = choose|j: int| 0 <= j < code.len() && code[j] == c[i][0];
        assert(is_base64_char(code[j]));
        assert(last[0] == '-');
    }
    assert(lines_before(after, last) == Some(k));
    assert(lines.subrange(1, 1 + k) =~= c);
    assert(lines.skip(k + 2) =~= more);
}

/// Whether a block can be written and read back: its label is one line.
pub open spec fn writable_block(block: BlockView) -> bool {
    !block.0.contains('\n')
}

/// The texts of the blocks, each behind some white space.
pub open spec fn blocks_text(blocks: Seq<BlockView>, gaps: Seq<Seq<char>>) -> Seq<char>
    decreases blocks.len(),
{
    if blocks.len() == 0 {
        Seq::empty()
    } else {
        gaps[0] + block_text(blocks[0].0, blocks[0].1) + blocks_text(blocks.skip(1), gaps.skip(1))
    }
}

/// Reading blocks that were written, with any white space between them and around
/// them, gives the blocks back.
pub proof fn lemma_pem_roundtrip(blocks: Seq<BlockView>, gaps: Seq<Seq<char>>, end: Seq<char>)
    requires
        gaps.len() == blocks.len(),
        forall|i: int| 0 <= i < gaps.len() ==> blank(#[trigger] gaps[i]),
        blank(end),
        forall|i: int| 0 <= i < blocks.len() ==> writable_block(#[trigger] blocks[i]),
    ensures
        pem_blocks(encode_utf8(blocks_text(blocks, gaps) + end)) == Ok::<_, PemError>(blocks),
{
    let text = blocks_text(blocks, gaps) + end;
    encode_utf8_valid_utf8(text);
    encode_utf8_decode_utf8(text);
    lemma_lines_roundtrip(blocks, gaps, end);
}

proof fn lemma_lines_roundtrip(blocks: Seq<BlockView>, gaps: Seq<Seq<char>>, end: Seq<char>)
    requires
        gaps.len() == blocks.len(),
        forall|i: int| 0 <= i < gaps.len() ==> blank(#[trigger] gaps[i]),
        blank(end),
        forall|i: int| 0 <= i < blocks.len() ==> writable_block(#[trigger] blocks[i]),
    ensures
        blocks_of_lines(trimmed_lines(blocks_text(blocks, gaps) + end)) == Ok::<_, PemError>(
            blocks,
        ),
    decreases blocks.len(),
{
    let empty = Seq::<char>::empty();
    if blocks.len() == 0 {
        lemma_blank_front(end, empty);
        assert(blocks_text(blocks, gaps) + end =~= end + empty);
        assert(blocks =~= Seq::empty());
    } else {
        let bs = blocks.skip(1);
        let gs = gaps.skip(1);
        assert forall|i: int| 0 <= i < gs.len() implies blank(#[trigger] gs[i]) by {
            assert(gs[i] == gaps[i + 1]);
        }
        assert forall|i: int| 0 <= i < bs.len() implies writable_block(#[trigger] bs[i]) by {
            assert(bs[i] == blocks[i + 1]);
        }
        lemma_lines_roundtrip(bs, gs, end);
        let (label, body) = blocks[0];
        assert(blank(gaps[0]));
        assert(writable_block(blocks[0]));
        let rest = blocks_text(bs, gs) + end;
        let text = block_text(label, body) + rest;
        assert(blocks_text(blocks, gaps) + end =~= gaps[0] + text);
        lemma_blank_front(gaps[0], text);
        lemma_block_lines(label, body, rest);
        lemma_block_read(label, body, trimmed_lines(rest));
        assert(seq![(label, body)] + bs =~= blocks);
    }
}

/// The text of a block, written out: the two markers on lines of their own, and between
/// them the Base64 form in lines of 64 characters, the last of which may be shorter.
pub proof fn lemma_block_written_out(label: Seq<char>, body: Seq<u8>, a: Seq<char>, b: Seq<char>)
    ensures
        block_text(label, body) == "-----BEGIN "@ + label + "-----\n"@ + wrapped(
            base64_encode(body),
        ) + "-----END "@ + label + "-----\n"@,
        wrapped(Seq::empty()) == Seq::<char>::empty(),
        0 < a.len() <= 64 ==> wrapped(a) == a.push('\n'),
        a.len() == 64 && b.len() > 0 ==> wrapped(a + b) == a.push('\n') + wrapped(b),
{
    reveal_strlit("-----BEGIN ");
    reveal_strlit("-----END ");
    reveal_strlit("-----\n");
    let code = wrapped(base64_encode(body));
    assert("-----BEGIN "@ =~= begin_mark());
    assert("-----END "@ =~= end_mark());
    assert("-----\n"@ =~= dashes().push('\n'));
    assert(block_text(label, body) =~= begin_mark() + label + dashes().push('\n') + code
        + end_mark() + label + dashes().push('\n'));
    if 0 < a.len() <= 64 {
        assert(wrapped(a) =~= a.push('\n'));
    }
    if a.len() == 64 && b.len() > 0 {
        let t = a + b;
        assert(t.take(64) =~= a);
        assert(t.skip(64) =~= b);
        assert(a + seq!['\n'] + wrapped(b) =~= a.push('\n') + wrapped(b));
    }
}

/// A begin marker is five dashes, `BEGIN`, a blank, the label and five dashes; nothing else
/// is one.
pub proof fn lemma_begin_marker(line: Seq<char>, label: Seq<char>)
    ensures
        begin_label(line) == Some(label) <==> line == "-----BEGIN "@ + label + "-----"@,
        end_marker(label) == "-----END "@ + label + "-----"@,
{
    reveal_strlit("-----BEGIN ");
    reveal_strlit("-----END ");
    reveal_strlit("-----");
    assert("-----BEGIN "@ =~= begin_mark());
    assert("-----END "@ =~= end_mark());
    assert("-----"@ =~= dashes());
    let whole = begin_mark() + label + dashes();
    let n = line.len() as int;
    if line == whole {
        assert(line.subrange(0, 11) =~= begin_mark());
        assert(line.subrange(n - 5, n) =~= dashes());
        assert(line.subrange(11, n - 5) =~= label);
    }
    if begin_label(line) == Some(label) {
        assert(line =~= line.subrange(0, 11) + line.subrange(11, n - 5) + line.subrange(n - 5, n));
        assert(line.subrange(n - 5, n) == dashes());
        assert(line.subrange(0, 11) == begin_mark());
    }
}

/// Lines are read one by one, without the white space around them; lines of white space
/// only are passed over.
pub proof fn lemma_lines_read(a: Seq<char>, line: Seq<char>, b: Seq<char>, rest: Seq<char>)
    requires
        forall|i: int| 0 <= i < a.len() ==> is_white_space(#[trigger] a[i]),
        forall|i: int| 0 <= i < b.len() ==> is_white_space(#[trigger] b[i]),
        !a.contains('\n'),
        !b.contains('\n'),
        !line.contains('\n'),
        line.len() > 0 ==> !is_white_space(line[0]) && !is_white_space(line.last()),
    ensures
        trimmed_lines(a + line + b + seq!['\n'] + rest) == if line.len() > 0 {
            seq![line] + trimmed_lines(rest)
        } else {
            trimmed_lines(rest)
        },
        trimmed_lines(Seq::empty()) == Seq::<Seq<char>>::empty(),
        blank(a),
        line.len() > 0 ==> trimmed_lines(a + line + b) == seq![line],
{
    let whole = a + line + b;
    let text = whole + seq!['\n'] + rest;
    assert(!whole.contains('\n')) by {
        if whole.contains('\n') {
            let i = choose|i: int| 0 <= i < whole.len() && whole[i] == '\n';
            if i < a.len() {
                assert(a[i] == '\n');
            } else if i < a.len() + line.len() {
                assert(line[i - a.len()] == '\n');
            } else {
                assert(b[i - a.len() - line.len()] == '\n');
            }
        }
    }
    lemma_line_len(whole, rest);
    assert(text.take(whole.len() as int) =~= whole);
    assert(text.skip(whole.len() as int + 1) =~= rest);
    if line.len() > 0 {
        lemma_trim_around(a, line, b);
        lemma_single_line(whole);
        assert(whole.take(whole.len() as int) =~= whole);
        assert(seq![line] + Seq::<Seq<char>>::empty() =~= seq![line]);
    } else {
        assert(whole =~= a + b);
        lemma_trim_blank(whole);
    }
}

proof fn lemma_single_line(line: Seq<char>)
    requires
        !line.contains('\n'),
    ensures
        line_len(line) == line.len(),
    decreases line.len(),
{
    if line.len() > 0 {
        let t = line.skip(1);
        assert(line.contains(line[0]));
        assert(!t.contains('\n')) by {
            if t.contains('\n') {
                let i = choose|i: int| 0 <= i < t.len() && t[i] == '\n';
                assert(line[i + 1] == '\n');
            }
        }
        lemma_single_line(t);
    }
}

proof fn lemma_trim_blank(s: Seq<char>)
    requires
        blank(s),
    ensures
        trim(s).len() == 0,
    decreases s.len(),
{
    if s.len() > 0 {
        let t = s.skip(1);
        assert forall|i: int| 0 <= i < t.len() implies is_white_space(#[trigger] t[i]) by {
            assert(t[i] == s[i + 1]);
        }
        assert(is_white_space(s[0]));
        lemma_trim_blank(t);
    }
}

/// What is wrong with a file that holds no blocks: bytes that are no text, a first line
/// that is no begin marker, a block that is not ended with its own label, or a body that is
/// no Base64.
pub proof fn lemma_not_blocks(bytes: Seq<u8>, label: Seq<char>, k: int)
    ensures
        !valid_utf8(bytes) ==> pem_blocks(bytes) == Err::<Seq<BlockView>, _>(PemError::NotUtf8),
        valid_utf8(bytes) ==> {
            let lines = trimmed_lines(decode_utf8(bytes));
            &&& lines.len() == 0 ==> pem_blocks(bytes) == Ok::<_, PemError>(
                Seq::<BlockView>::empty(),
            )
            &&& lines.len() > 0 && (forall|l: Seq<char>|
                lines[0] != #[trigger] ("-----BEGIN "@ + l + "-----"@)) ==> pem_blocks(bytes)
                == Err::<Seq<BlockView>, _>(PemError::ExpectedBegin)
            &&& lines.len() > 0 && lines[0] == "-----BEGIN "@ + label + "-----"@ && (forall|i: int|
                0 < i < lines.len() ==> #[trigger] lines[i] != "-----END "@ + label + "-----"@)
                ==> pem_blocks(bytes) == Err::<Seq<BlockView>, _>(PemError::MissingEnd)
            &&& 0 < k < lines.len() && lines[0] == "-----BEGIN "@ + label + "-----"@ && lines[k]
                == "-----END "@ + label + "-----"@ && (forall|i: int|
                0 < i < k ==> #[trigger] lines[i] != "-----END "@ + label + "-----"@)
                && base64_decode(joined(lines.subrange(1, k))) is Err ==> pem_blocks(bytes)
                == Err::<Seq<BlockView>, _>(PemError::BadBase64(Base64Error::InvalidEncoding))
        },
{
    if valid_utf8(bytes) {
        let lines = trimmed_lines(decode_utf8(bytes));
        if lines.len() > 0 {
            let after = lines.skip(1);
            lemma_begin_marker(lines[0], label);
            lemma_lines_before(after, end_marker(label));
            assert forall|i: int| 0 <= i < after.len() implies after[i] == #[trigger] lines[i
                + 1] by {}
            match begin_label(lines[0]) {
                Some(l) => {
                    lemma_begin_marker(lines[0], l);
                    assert(lines[0] == "-----BEGIN "@ + l + "-----"@);
                    if let Some(j) = lines_before(after, end_marker(label)) {
                        assert(after[j] == lines[j + 1]);
                        if 0 < k < lines.len() && lines[k] == end_marker(label) {
                            assert(after[k - 1] == lines[k]);
                            if j + 1 == k {
                                assert(lines.subrange(1, 1 + j) == lines.subrange(1, k));
                            }
                        }
                    } else {
                        if 0 < k < lines.len() {
                            assert(after[k - 1] == lines[k]);
                        }
                    }
                },
                None => {},
            }
        }
    }
}

/// Blocks are taken one by one, in their order, and lines are joined without anything
/// between them.
pub proof fn lemma_blocks_taken(v: Seq<PemBlock>, lines: Seq<Seq<char>>, line: Seq<char>, i: int)
    ensures
        block_views(v).len() == v.len(),
        0 <= i < v.len() ==> block_views(v)[i].0 == v[i].label@ && block_views(v)[i].1
            == v[i].body@,
        joined(Seq::empty()) == Seq::<char>::empty(),
        joined(lines.push(line)) == joined(lines) + line,
{
    assert(lines.push(line).drop_last() =~= lines);
}

/// A block that is ended with its own label, and whose body is Base64, is read with its
/// label and its body, and what follows it is read as if it stood alone.
pub proof fn lemma_block_then_more(lines: Seq<Seq<char>>, label: Seq<char>, k: int, body: Seq<u8>)
    requires
        0 < k < lines.len(),
        lines[0] == "-----BEGIN "@ + label + "-----"@,
        lines[k] == "-----END "@ + label + "-----"@,
        forall|i: int| 0 < i < k ==> #[trigger] lines[i] != "-----END "@ + label + "-----"@,
        base64_decode(joined(lines.subrange(1, k))) == Ok::<_, Base64Error>(body),
    ensures
        match blocks_of_lines(lines.skip(k + 1)) {
            Ok(more) => blocks_of_lines(lines) == Ok::<_, PemError>(seq![(label, body)] + more),
            Err(e) => blocks_of_lines(lines) == Err::<Seq<BlockView>, _>(e),
        },
{
    let after = lines.skip(1);
    lemma_begin_marker(lines[0], label);
    lemma_lines_before(after, end_marker(label));
    assert(after[k - 1] == lines[k]);
    let j = lines_before(after, end_marker(label))->0;
    assert(after[j] == lines[j + 1]);
    if j < k - 1 {
        assert(lines[j + 1] != end_marker(label));
    }
    assert(j == k - 1);
    assert(lines.subrange(1, 1 + j) == lines.subrange(1, k));
    assert(lines.skip(j + 2) == lines.skip(k + 1));
}

} // verus!
