use vstd::prelude::*;
use crate::display::{back_by, erase, esc, EventV};
use crate::utils::{push_char, string_of, usize_text};

verus! {

/// What the plain reader hands back: a finished line, or the line so far
/// when completion is asked for.
#[derive(Debug)]
pub enum ReadEnum {
    Command(String),
    Comp(String),
}

/// A plain line reader: the buffer, the cursor as a distance from the end,
/// and how far an escape sequence has come.
pub struct Reader {
    cmd: Vec<char>,
    cur: usize,
    escape: u8,
}

pub struct ReaderV {
    pub cmd: Seq<char>,
    pub cur: nat,
    pub escape: u8,
}

impl View for Reader {
    type V = ReaderV;

    closed spec fn view(&self) -> ReaderV {
        ReaderV { cmd: self.cmd@, cur: self.cur as nat, escape: self.escape }
    }
}

pub open spec fn read_event(e: Option<ReadEnum>) -> Option<EventV> {
    match e {
        Some(ReadEnum::Command(s)) => Some(EventV::Command(s@)),
        Some(ReadEnum::Comp(s)) => Some(EventV::Comp(s@)),
        None => None,
    }
}

/// The reader after one character, what it writes, and what it emits:
/// Enter ends the line, TAB asks for completion, DEL drops the last
/// character, arrows move the cursor, printable characters are inserted.
pub open spec fn reader_step(d: ReaderV, ch: char) -> (ReaderV, Seq<char>, Option<EventV>) {
    if d.escape == 1 && ch == '[' {
        (ReaderV { escape: 2, ..d }, Seq::empty(), None)
    } else if d.escape == 2 {
        let d0 = ReaderV { escape: 0, ..d };
        if ch == 'C' && d.cur != 0 {
            (ReaderV { cur: (d.cur - 1) as nat, ..d0 }, seq![esc(), '[', 'C'], None)
        } else if ch == 'D' && d.cur < d.cmd.len() {
            (ReaderV { cur: d.cur + 1, ..d0 }, seq![esc(), '[', 'D'], None)
        } else {
            (d0, Seq::empty(), None)
        }
    } else {
        let d0 = ReaderV { escape: 0, ..d };
        let p = d.cmd.len() - d.cur;
        if ch == '\n' || ch == '\r' {
            (ReaderV { cmd: Seq::empty(), cur: 0, ..d0 }, seq!['\n', '\r'], Some(EventV::Command(d.cmd)))
        } else if ch == '\t' {
            (d0, Seq::empty(), Some(EventV::Comp(d.cmd)))
        } else if ch == '\x7f' {
            if d.cmd.len() > 0 {
                (
                    ReaderV { cmd: d.cmd.drop_last(), cur: if d.cur > 0 { (d.cur - 1) as nat } else { 0 }, ..d0 },
                    seq![esc(), '[', 'D'] + erase(),
                    None,
                )
            } else {
                (d0, Seq::empty(), None)
            }
        } else if ch == esc() {
            (ReaderV { escape: 1, ..d }, Seq::empty(), None)
        } else if (ch as u32) < 0x20 {
            (d0, Seq::empty(), None)
        } else {
            (
                ReaderV { cmd: d.cmd.insert(p, ch), ..d0 },
                erase() + seq![ch] + d.cmd.skip(p) + back_by(d.cur),
                None,
            )
        }
    }
}

impl Reader {
    pub closed spec fn wf(&self) -> bool {
        &&& self.cur <= self.cmd@.len()
        &&& self.escape <= 2
    }

    /// What a well-formed reader guarantees of its view.
    pub proof fn lemma_wf(&self)
        requires
            self.wf(),
        ensures
            self@.cur <= self@.cmd.len(),
            self@.escape <= 2,
    {
    }

    pub fn new() -> (r: Reader)
        ensures
            r.wf(),
            r@ == (ReaderV { cmd: Seq::empty(), cur: 0, escape: 0 }),
    {
        Reader { cmd: Vec::new(), cur: 0, escape: 0 }
    }

    /// Empties the buffer.
    pub fn clear(&mut self)
        requires
            old(self).wf(),
        ensures
            final(self).wf(),
            final(self)@ == (ReaderV { cmd: Seq::empty(), cur: 0, ..old(self)@ }),
    {
        self.cmd = Vec::new();
        self.cur = 0;
    }

    /// Takes one character typed in raw mode.
    pub fn key(&mut self, ch: char) -> (r: (String, Option<ReadEnum>))
        requires
            old(self).wf(),
        ensures
            final(self).wf(),
            (final(self)@, r.0@, read_event(r.1)) == reader_step(old(self)@, ch),
    {
        let ghost d = self@;
        let mut out = String::new();
        if self.escape == 1 && ch == '[' {
            self.escape = 2;
            return (out, None);
        }
        if self.escape == 2 {
            self.escape = 0;
            if ch == 'C' && self.cur != 0 {
                self.cur = self.cur - 1;
                push_char(&mut out, '\x1b');
                push_char(&mut out, '[');
                push_char(&mut out, 'C');
                assert(out@ =~= seq![esc(), '[', 'C']);
            } else if ch == 'D' && self.cur < self.cmd.len() {
                self.cur = self.cur + 1;
                push_char(&mut out, '\x1b');
                push_char(&mut out, '[');
                push_char(&mut out, 'D');
                assert(out@ =~= seq![esc(), '[', 'D']);
            }
            return (out, None);
        }
        self.escape = 0;
        let p = self.cmd.len() - self.cur;
        if ch == '\n' || ch == '\r' {
            push_char(&mut out, '\n');
            push_char(&mut out, '\r');
            let line = string_of(&self.cmd);
            self.cmd = Vec::new();
            self.cur = 0;
            assert(out@ =~= seq!['\n', '\r']);
            return (out, Some(ReadEnum::Command(line)));
        }
        if ch == '\t' {
            let line = string_of(&self.cmd);
            return (out, Some(ReadEnum::Comp(line)));
        }
        if ch == '\x7f' {
            if self.cmd.len() > 0 {
                self.cmd.pop();
                if self.cur > 0 {
                    self.cur = self.cur - 1;
                }
                push_char(&mut out, '\x1b');
                push_char(&mut out, '[');
                push_char(&mut out, 'D');
                push_char(&mut out, '\x1b');
                push_char(&mut out, '[');
                push_char(&mut out, 'J');
                assert(self.cmd@ =~= d.cmd.drop_last());
                assert(out@ =~= seq![esc(), '[', 'D'] + erase());
            }
            return (out, None);
        }
        if ch == '\x1b' {
            self.escape = 1;
            return (out, None);
        }
        if (ch as u32) < 0x20 {
            return (out, None);
        }
        self.cmd.insert(p, ch);
        push_char(&mut out, '\x1b');
        push_char(&mut out, '[');
        push_char(&mut out, 'J');
        push_char(&mut out, ch);
        let n2 = self.cmd.len();
        let mut i = p + 1;
        while i < n2
            invariant
                p + 1 <= i <= n2,
                n2 == self.cmd@.len(),
                out@ == erase() + seq![ch] + self.cmd@.subrange(p + 1, i as int),
            decreases n2 - i,
        {
            push_char(&mut out, self.cmd[i]);
            i += 1;
            assert(out@ =~= erase() + seq![ch] + self.cmd@.subrange(p + 1, i as int));
        }
        if self.cur != 0 {
            push_char(&mut out, '\x1b');
            push_char(&mut out, '[');
            let t = usize_text(self.cur);
            out.append(t.as_str());
            push_char(&mut out, 'D');
        }
        assert(self.cmd@.subrange(p + 1, n2 as int) =~= d.cmd.skip(p as int));
        assert(out@ =~= erase() + seq![ch] + d.cmd.skip(p as int) + back_by(d.cur));
        (out, None)
    }
}

} // verus!
