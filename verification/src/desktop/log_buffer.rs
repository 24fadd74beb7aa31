//! The last lines of the log, for the window to show.

use std::collections::VecDeque;
use vstd::prelude::*;
use vstd::string::*;
use crate::text;

verus! {

/// How many lines are kept.
pub const MAX_LINES: usize = 2000;

/// A line of the log.
#[derive(Debug)]
pub struct LogLine {
    /// The lines are numbered as they come.
    pub seq: u64,
    pub ts: String,
    pub level: String,
    pub target: String,
    pub message: String,
}

/// The view of a line of the log.
pub struct LineView {
    pub seq: u64,
    pub ts: Seq<char>,
    pub level: Seq<char>,
    pub target: Seq<char>,
    pub message: Seq<char>,
}

impl View for LogLine {
    type V = LineView;

    open spec fn view(&self) -> LineView {
        LineView {
            seq: self.seq,
            ts: self.ts@,
            level: self.level@,
            target: self.target@,
            message: self.message@,
        }
    }
}

impl LogLine {
    /// The same line again.
    pub fn duplicate(&self) -> (r: Self)
        ensures
            r@ == self@,
    {
        LogLine {
            seq: self.seq,
            ts: self.ts.clone(),
            level: self.level.clone(),
            target: self.target.clone(),
            message: self.message.clone(),
        }
    }
}

pub open spec fn lines_view(lines: Seq<LogLine>) -> Seq<LineView> {
    lines.map_values(|l: LogLine| l@)
}

/// The last lines of the log.
#[derive(Debug)]
pub struct LogBuffer {
    pub lines: VecDeque<LogLine>,
    pub next_seq: u64,
    pub enabled: bool,
}

/// The view of the last lines of the log.
pub struct BufferView {
    pub lines: Seq<LineView>,
    pub next_seq: nat,
    pub enabled: bool,
}

impl View for LogBuffer {
    type V = BufferView;

    open spec fn view(&self) -> BufferView {
        BufferView {
            lines: lines_view(self.lines@),
            next_seq: self.next_seq as nat,
            enabled: self.enabled,
        }
    }
}

impl BufferView {
    /// The lines are in the order of their numbers, which are not zero, and there are not
    /// too many.
    pub open spec fn wf(self) -> bool {
        &&& self.lines.len() <= 2000
        &&& self.next_seq > 0
        &&& forall|i: int, j: int|
            0 <= i < j < self.lines.len() ==> (#[trigger] self.lines[i]).seq < (
            #[trigger] self.lines[j]).seq
        &&& forall|i: int|
            0 <= i < self.lines.len() ==> 0 < (#[trigger] self.lines[i]).seq < self.next_seq
    }

    /// With one more line: where there are too many, the oldest goes.
    pub open spec fn pushed(self, line: LineView) -> BufferView {
        BufferView {
            lines: (if self.lines.len() >= 2000 {
                self.lines.drop_first()
            } else {
                self.lines
            }).push(line),
            next_seq: self.next_seq + 1,
            ..self
        }
    }
}

/// The lines with a greater number.
pub open spec fn after(lines: Seq<LineView>, seq: u64) -> Seq<LineView>
    decreases lines.len(),
{
    if lines.len() == 0 {
        Seq::empty()
    } else if lines.last().seq > seq {
        after(lines.drop_last(), seq).push(lines.last())
    } else {
        after(lines.drop_last(), seq)
    }
}

impl LogBuffer {
    /// Without lines, and on.
    pub fn new() -> (r: Self)
        ensures
            r@ == (BufferView { lines: Seq::empty(), next_seq: 1, enabled: true }),
            r@.wf(),
    {
        let r = LogBuffer { lines: VecDeque::new(), next_seq: 1, enabled: true };
        assert(r@.lines =~= Seq::empty());
        r
    }

    /// Whether lines are kept.
    pub fn is_enabled(&self) -> (r: bool)
        ensures
            r == self@.enabled,
    {
        self.enabled
    }

    /// Switches the keeping of lines on or off. The lines that are there stay.
    pub fn set_enabled(&mut self, enabled: bool)
        ensures
            final(self)@ == (BufferView { enabled, ..old(self)@ }),
    {
        self.enabled = enabled;
    }

    /// Drops all lines. The numbers go on.
    pub fn clear(&mut self)
        ensures
            final(self)@ == (BufferView { lines: Seq::empty(), ..old(self)@ }),
    {
        self.lines = VecDeque::new();
        assert(self@.lines =~= Seq::empty());
    }

    /// The lines with a greater number than this one, in order.
    pub fn since(&self, seq: u64) -> (r: Vec<LogLine>)
        ensures
            lines_view(r@) == after(self@.lines, seq),
    {
        let ghost all = self@.lines;
        let mut r: Vec<LogLine> = Vec::new();
        let n: usize = self.lines.len();
        let mut i: usize = 0;
        assert(lines_view(r@) =~= Seq::empty());
        while i < n
            invariant
                i <= n == self.lines@.len(),
                all == lines_view(self.lines@),
                lines_view(r@) == after(all.take(i as int), seq),
            decreases n - i,
        {
            let ghost before = lines_view(r@);
            assert(all.take(i + 1).drop_last() =~= all.take(i as int));
            assert(all.take(i + 1).last() == self.lines@[i as int]@);
            if self.lines[i].seq > seq {
                let line: LogLine = self.lines[i].duplicate();
                let ghost v = line@;
                r.push(line);
                assert(lines_view(r@) =~= before.push(v));
            }
            i = i + 1;
        }
        assert(all.take(i as int) =~= all);
        r
    }

    /// Keeps one more line.
    pub fn push(&mut self, ts: String, level: &str, target: &str, message: String)
        requires
            old(self)@.wf(),
            old(self)@.next_seq < u64::MAX,
        ensures
            final(self)@ == old(self)@.pushed(
                LineView {
                    seq: old(self)@.next_seq as u64,
                    ts: ts@,
                    level: level@,
                    target: target@,
                    message: message@,
                },
            ),
            final(self)@.wf(),
    {
        let ghost v = self@;
        let line = LogLine {
            seq: self.next_seq,
            ts,
            level: level.to_owned(),
            target: target.to_owned(),
            message,
        };
        let ghost l = line@;
        self.next_seq = self.next_seq + 1;
        if self.lines.len() >= MAX_LINES {
            let ghost before = self.lines@;
            let _ = self.lines.pop_front();
            assert(lines_view(self.lines@) =~= v.lines.drop_first());
        }
        let ghost kept = lines_view(self.lines@);
        self.lines.push_back(line);
        assert(lines_view(self.lines@) =~= kept.push(l));
        assert(self@.lines =~= v.pushed(l).lines);
        proof {
            let lines = self@.lines;
            let shift: int = if v.lines.len() >= 2000 {
                1
            } else {
                0
            };
            assert forall|i: int| 0 <= i < lines.len() - 1 implies #[trigger] lines[i]
                == v.lines[i + shift] by {}
        }
    }

    /// Keeps an event of the log, if lines are kept at all.
    pub fn capture(&mut self, ts: String, level: &str, target: &str, event: &MessageVisitor)
        requires
            old(self)@.wf(),
            old(self)@.next_seq < u64::MAX,
        ensures
            final(self)@ == if old(self)@.enabled {
                old(self)@.pushed(
                    LineView {
                        seq: old(self)@.next_seq as u64,
                        ts: ts@,
                        level: level@,
                        target: target@,
                        message: line_text(event.message@, event.fields@),
                    },
                )
            } else {
                old(self)@
            },
            final(self)@.wf(),
    {
        if self.enabled {
            self.push(ts, level, target, event.line());
        }
    }
}

/// What an event of the log says: its message, and its other fields.
#[derive(Debug)]
pub struct MessageVisitor {
    pub message: String,
    pub fields: String,
}

/// The message, and the fields behind it.
pub open spec fn line_text(message: Seq<char>, fields: Seq<char>) -> Seq<char> {
    if fields.len() == 0 {
        message
    } else if message.len() == 0 {
        fields
    } else {
        message + " "@ + fields
    }
}

/// The fields with one more, with spaces between them.
pub open spec fn with_field(fields: Seq<char>, name: Seq<char>, value: Seq<char>) -> Seq<char> {
    if fields.len() == 0 {
        name + "="@ + value
    } else {
        fields + " "@ + name + "="@ + value
    }
}

impl MessageVisitor {
    /// An event that says nothing yet.
    pub fn new() -> (r: Self)
        ensures
            r.message@ == Seq::<char>::empty(),
            r.fields@ == Seq::<char>::empty(),
    {
        MessageVisitor { message: String::new(), fields: String::new() }
    }

    /// A field of the event, its value as it is shown.
    pub fn record(&mut self, name: &str, value: &str)
        ensures
            if name@ == "message"@ {
                final(self).message@ == old(self).message@ + value@ && final(self).fields@ == old(
                    self,
                ).fields@
            } else {
                final(self).message@ == old(self).message@ && final(self).fields@ == with_field(
                    old(self).fields@,
                    name@,
                    value@,
                )
            },
    {
        if text::str_eq(name, "message") {
            self.message.append(value);
            return;
        }
        let ghost before = self.fields@;
        if !self.fields.as_str().is_empty() {
            self.fields.append(" ");
        }
        self.fields.append(name);
        self.fields.append("=");
        self.fields.append(value);
        assert(self.fields@ =~= with_field(before, name@, value@));
    }

    /// The line of the event.
    pub fn line(&self) -> (r: String)
        ensures
            r@ == line_text(self.message@, self.fields@),
    {
        if self.fields.as_str().is_empty() {
            return self.message.clone();
        }
        if self.message.as_str().is_empty() {
            return self.fields.clone();
        }
        let mut s: String = self.message.clone();
        s.append(" ");
        s.append(self.fields.as_str());
        s
    }
}

/// A reader that has seen nothing yet gets all lines.
pub proof fn law_all_lines_since_zero(b: BufferView)
    requires
        b.wf(),
    ensures
        after(b.lines, 0) == b.lines,
{
    assert(Seq::<LineView>::empty() + b.lines =~= b.lines);
    lemma_all_after(Seq::empty(), b.lines, 0);
}

/// A buffer after more lines.
pub open spec fn with_lines(b: BufferView, lines: Seq<LineView>) -> BufferView
    decreases lines.len(),
{
    if lines.len() == 0 {
        b
    } else {
        with_lines(b, lines.drop_last()).pushed(lines.last())
    }
}

/// Whether lines are numbered one after the other from a number.
pub open spec fn numbered(lines: Seq<LineView>, from: nat) -> bool {
    forall|i: int| 0 <= i < lines.len() ==> (#[trigger] lines[i]).seq == from + i
}

/// A reader that asks again from the last number it has seen gets the lines that came
/// since, each once and in order, as long as they are no more than are kept.
pub proof fn law_new_lines_come_once(b: BufferView, lines: Seq<LineView>)
    requires
        b.wf(),
        b.next_seq + lines.len() <= u64::MAX,
        lines.len() <= 2000,
        numbered(lines, b.next_seq),
    ensures
        with_lines(b, lines).wf(),
        after(with_lines(b, lines).lines, (b.next_seq - 1) as u64) == lines,
{
    lemma_with_lines(b, lines);
    let all = with_lines(b, lines).lines;
    let k = all.len() - lines.len();
    assert(all =~= all.take(k) + lines);
    lemma_none_after(all.take(k), (b.next_seq - 1) as u64);
    lemma_all_after(all.take(k), lines, (b.next_seq - 1) as u64);
}

proof fn lemma_with_lines(b: BufferView, lines: Seq<LineView>)
    requires
        b.wf(),
        lines.len() <= 2000,
        b.next_seq + lines.len() <= u64::MAX,
        numbered(lines, b.next_seq),
    ensures
        ({
            let w = with_lines(b, lines);
            &&& w.wf()
            &&& w.next_seq == b.next_seq + lines.len()
            &&& w.lines.len() >= lines.len()
            &&& w.lines.skip(w.lines.len() - lines.len()) == lines
            &&& forall|i: int|
                0 <= i < w.lines.len() - lines.len() ==> (#[trigger] w.lines[i]).seq < b.next_seq
        }),
    decreases lines.len(),
{
    let w = with_lines(b, lines);
    if lines.len() > 0 {
        let rest = lines.drop_last();
        assert(numbered(rest, b.next_seq)) by {
            assert forall|i: int| 0 <= i < rest.len() implies (#[trigger] rest[i]).seq
                == b.next_seq + i by {
                assert(rest[i] == lines[i]);
            }
        }
        lemma_with_lines(b, rest);
        let v = with_lines(b, rest);
        let gone: int = if v.lines.len() >= 2000 {
            1
        } else {
            0
        };
        assert forall|i: int| 0 <= i < w.lines.len() - 1 implies #[trigger] w.lines[i]
            == v.lines[i + gone] by {}
        assert(lines.last().seq == v.next_seq);
        let k = v.lines.len() - rest.len();
        assert forall|i: int| 0 <= i < lines.len() implies #[trigger] w.lines.skip(
            w.lines.len() - lines.len(),
        )[i] == lines[i] by {
            if i < rest.len() {
                assert(v.lines.skip(k)[i] == rest[i]);
            }
        }
        assert(w.lines.skip(w.lines.len() - lines.len()) =~= lines);
    } else {
        assert(w.lines.skip(w.lines.len() as int) =~= lines);
    }
}

proof fn lemma_all_after(old_lines: Seq<LineView>, lines: Seq<LineView>, seq: u64)
    requires
        after(old_lines, seq) == Seq::<LineView>::empty(),
        forall|i: int| 0 <= i < lines.len() ==> (#[trigger] lines[i]).seq > seq,
    ensures
        after(old_lines + lines, seq) == lines,
    decreases lines.len(),
{
    let all = old_lines + lines;
    if lines.len() == 0 {
        assert(all =~= old_lines);
        assert(lines =~= Seq::empty());
    } else {
        lemma_all_after(old_lines, lines.drop_last(), seq);
        assert(all.drop_last() =~= old_lines + lines.drop_last());
        assert(all.last() == lines[lines.len() - 1]);
        assert(lines.drop_last().push(lines.last()) =~= lines);
    }
}

proof fn lemma_none_after(lines: Seq<LineView>, seq: u64)
    requires
        forall|i: int| 0 <= i < lines.len() ==> (#[trigger] lines[i]).seq <= seq,
    ensures
        after(lines, seq) == Seq::<LineView>::empty(),
    decreases lines.len(),
{
    if lines.len() > 0 {
        lemma_none_after(lines.drop_last(), seq);
    }
}

/// A new line is the last of a buffer, with the next number; all others stay, in order, but for
/// the oldest of a full buffer.
pub proof fn law_new_line_is_last(b: BufferView, line: LineView)
    requires
        b.wf(),
    ensures
        ({
            let r = b.pushed(line);
            let all = b.lines.push(line);
            &&& r.lines.len() <= 2000
            &&& r.lines.last() == line
            &&& r.next_seq == b.next_seq + 1
            &&& r.enabled == b.enabled
            &&& b.lines.len() < 2000 ==> r.lines == all
            &&& b.lines.len() == 2000 ==> r.lines == all.skip(1)
        }),
{
    let r = b.pushed(line);
    let all = b.lines.push(line);
    if b.lines.len() == 2000 {
        assert(r.lines =~= all.skip(1));
    }
}

/// The lines after a number are those with a greater one, in order, and no others.
pub proof fn law_lines_after_a_number(lines: Seq<LineView>, seq: u64)
    ensures
        forall|i: int|
            0 <= i < after(lines, seq).len() ==> (#[trigger] after(lines, seq)[i]).seq > seq
                && lines.contains(after(lines, seq)[i]),
        forall|i: int|
            0 <= i < lines.len() && (#[trigger] lines[i]).seq > seq ==> after(lines, seq).contains(
                lines[i],
            ),
    decreases lines.len(),
{
    if lines.len() > 0 {
        let rest = lines.drop_last();
        law_lines_after_a_number(rest, seq);
        let a = after(rest, seq);
        let b = after(lines, seq);
        assert forall|i: int| 0 <= i < b.len() implies (#[trigger] b[i]).seq > seq
            && lines.contains(b[i]) by {
            if i < a.len() {
                assert(b[i] == a[i]);
                let k = choose|k: int| 0 <= k < rest.len() && rest[k] == a[i];
                assert(lines[k] == a[i]);
            } else {
                assert(lines[lines.len() - 1] == b[i]);
            }
        }
        assert forall|i: int| 0 <= i < lines.len() && (#[trigger] lines[i]).seq
            > seq implies b.contains(lines[i]) by {
            if i < rest.len() {
                assert(rest[i] == lines[i]);
                let k = choose|k: int| 0 <= k < a.len() && a[k] == rest[i];
                assert(b[k] == lines[i]);
            } else {
                assert(b[b.len() - 1] == lines[i]);
            }
        }
    }
}

/// A line says all of its message and all of its fields, the message first.
pub proof fn law_line_says_all(message: Seq<char>, fields: Seq<char>)
    ensures
        text::begins_with(line_text(message, fields), message),
        text::ends_in(line_text(message, fields), fields),
        line_text(message, fields).len() == message.len() + fields.len() + if message.len() == 0
            || fields.len() == 0 {
            0nat
        } else {
            1nat
        },
{
    reveal_strlit(" ");
    let s = line_text(message, fields);
    assert(s.subrange(0, message.len() as int) =~= message);
    assert(s.skip(s.len() - fields.len()) =~= fields);
}

/// A field is added behind the others, with its name and its value.
pub proof fn law_field_is_added(fields: Seq<char>, name: Seq<char>, value: Seq<char>)
    ensures
        text::begins_with(with_field(fields, name, value), fields),
        text::ends_in(with_field(fields, name, value), name + "="@ + value),
        fields.len() > 0 ==> with_field(fields, name, value)[fields.len() as int] == ' ',
{
    reveal_strlit(" ");
    let s = with_field(fields, name, value);
    let f = name + "="@ + value;
    assert(s.subrange(0, fields.len() as int) =~= fields);
    assert(s.skip(s.len() - f.len()) =~= f);
}

} // verus!
