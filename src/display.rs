use vstd::prelude::*;
use crate::utils::{decimal, push_char, string_of, usize_text};

verus! {

/// What the editor hands back: a finished line, or the line so far after a
/// change (to be completed).
#[derive(Debug)]
pub enum ReadEnum {
    Command(String),
    Comp(String),
}

/// The line editor: the edit buffer, the cursor as a distance from the end
/// of the buffer, where history browsing stands, the pending suggestion,
/// and how far an escape sequence has come (0 none, 1 after ESC, 2 after
/// `ESC [`).
pub struct Display {
    cmd: Vec<char>,
    cur: usize,
    history_cur: Option<usize>,
    suggestion: Option<Vec<char>>,
    escape: u8,
}

pub struct DisplayV {
    pub cmd: Seq<char>,
    pub cur: nat,
    pub history_cur: Option<nat>,
    pub suggestion: Option<Seq<char>>,
    pub escape: u8,
}

pub enum EventV {
    Command(Seq<char>),
    Comp(Seq<char>),
}

impl View for Display {
    type V = DisplayV;

    closed spec fn view(&self) -> DisplayV {
        DisplayV {
            cmd: self.cmd@,
            cur: self.cur as nat,
            history_cur: match self.history_cur {
                Some(i) => Some(i as nat),
                None => None,
            },
            suggestion: match self.suggestion {
                Some(s) => Some(s@),
                None => None,
            },
            escape: self.escape,
        }
    }
}

pub open spec fn event_view(e: Option<ReadEnum>) -> Option<EventV> {
    match e {
        Some(ReadEnum::Command(s)) => Some(EventV::Command(s@)),
        Some(ReadEnum::Comp(s)) => Some(EventV::Comp(s@)),
        None => None,
    }
}

pub open spec fn esc() -> char {
    '\x1b'
}

/// `ESC [ n C`: the cursor `n` to the right.
pub open spec fn move_right(n: nat) -> Seq<char> {
    seq![esc(), '['] + decimal(n as int) + seq!['C']
}

/// `ESC [ n D`: the cursor `n` to the left.
pub open spec fn move_left(n: nat) -> Seq<char> {
    seq![esc(), '['] + decimal(n as int) + seq!['D']
}

/// `ESC [ J`: erase to the end of the screen.
pub open spec fn erase() -> Seq<char> {
    seq![esc(), '[', 'J']
}

/// Puts the terminal cursor back at the end of the line.
pub open spec fn to_end(cur: nat) -> Seq<char> {
    if cur != 0 {
        move_right(cur)
    } else {
        Seq::empty()
    }
}

pub open spec fn back_by(cur: nat) -> Seq<char> {
    if cur != 0 {
        move_left(cur)
    } else {
        Seq::empty()
    }
}

pub open spec fn edit_pos(d: DisplayV) -> int {
    d.cmd.len() - d.cur
}

pub open spec fn entry(history: Seq<(i32, String)>, i: nat) -> Seq<char> {
    history[i as int].1@
}

/// The history index that an arrow key moves to: up from nothing goes to
/// the last entry, up from the first to nothing; down from nothing goes to
/// the first, down from the last to nothing.
pub open spec fn browse(up: bool, at: Option<nat>, len: nat) -> Option<nat> {
    if len == 0 {
        None
    } else if up {
        match at {
            Some(x) => if x == 0 {
                None
            } else if x - 1 < len {
                Some((x - 1) as nat)
            } else {
                Some((len - 1) as nat)
            },
            None => Some((len - 1) as nat),
        }
    } else {
        match at {
            Some(x) => if x + 1 >= len {
                None
            } else {
                Some(x + 1)
            },
            None => Some(0),
        }
    }
}

/// The editor after one character, what it writes to the terminal, and
/// the event it emits.
pub open spec fn step(d: DisplayV, ch: char, history: Seq<(i32, String)>) -> (DisplayV, Seq<char>, Option<EventV>) {
    if d.escape == 1 && ch == '[' {
        (DisplayV { escape: 2, ..d }, Seq::empty(), None)
    } else if d.escape == 2 {
        let d0 = DisplayV { escape: 0, ..d };
        if ch == 'A' || ch == 'B' {
            let at = browse(ch == 'A', d.history_cur, history.len());
            let clear = back_by((d.cmd.len() - d.cur) as nat) + erase();
            match at {
                Some(i) => (
                    DisplayV { cmd: entry(history, i), cur: 0, history_cur: at, ..d0 },
                    clear + entry(history, i),
                    None,
                ),
                None => (DisplayV { cmd: Seq::empty(), cur: 0, history_cur: at, ..d0 }, clear, None),
            }
        } else if ch == 'C' && d.cur != 0 {
            (DisplayV { cur: (d.cur - 1) as nat, ..d0 }, seq![esc(), '[', 'C'], None)
        } else if ch == 'D' && d.cur < d.cmd.len() {
            (DisplayV { cur: d.cur + 1, ..d0 }, seq![esc(), '[', 'D'], None)
        } else {
            (d0, Seq::empty(), None)
        }
    } else {
        let d0 = DisplayV { escape: 0, ..d };
        let p = edit_pos(d);
        if ch == '\n' || ch == '\r' {
            (
                DisplayV { cmd: Seq::empty(), cur: 0, history_cur: None, ..d0 },
                to_end(d.cur) + erase() + seq!['\n', '\r'],
                Some(EventV::Command(d.cmd)),
            )
        } else if ch == '\t' {
            let s = match d.suggestion {
                Some(s) => s,
                None => Seq::empty(),
            };
            (DisplayV { cmd: d.cmd + s, cur: 0, suggestion: None, ..d0 }, to_end(d.cur) + s, None)
        } else if ch == '\x7f' {
            if p > 0 {
                let cmd = d.cmd.remove(p - 1);
                (
                    DisplayV { cmd, ..d0 },
                    seq![esc(), '[', 'D'] + erase() + d.cmd.skip(p) + back_by(d.cur),
                    Some(EventV::Comp(cmd)),
                )
            } else {
                (d0, Seq::empty(), Some(EventV::Comp(d.cmd)))
            }
        } else if ch == esc() {
            (DisplayV { escape: 1, ..d }, Seq::empty(), None)
        } else if (ch as u32) < 0x20 || ch == '\x7f' {
            (d0, Seq::empty(), None)
        } else {
            let cmd = d.cmd.insert(p, ch);
            (
                DisplayV { cmd, ..d0 },
                erase() + seq![ch] + d.cmd.skip(p) + back_by(d.cur),
                Some(EventV::Comp(cmd)),
            )
        }
    }
}

fn append_chars(out: &mut String, cs: &Vec<char>, from: usize)
    requires
        from <= cs@.len(),
    ensures
        final(out)@ == old(out)@ + cs@.skip(from as int),
{
    let mut i = from;
    while i < cs.len()
        invariant
            from <= i <= cs@.len(),
            out@ == old(out)@ + cs@.subrange(from as int, i as int),
        decreases cs.len() - i,
    {
        push_char(out, cs[i]);
        i += 1;
        assert(out@ =~= old(out)@ + cs@.subrange(from as int, i as int));
    }
    assert(cs@.subrange(from as int, cs@.len() as int) =~= cs@.skip(from as int));
}

fn push_move(out: &mut String, n: usize, dir: char)
    requires
        dir == 'C' || dir == 'D',
        n > 0,
    ensures
        final(out)@ == old(out)@ + (if dir == 'C' {
            move_right(n as nat)
        } else {
            move_left(n as nat)
        }),
{
    push_char(out, '\x1b');
    push_char(out, '[');
    let d = usize_text(n);
    out.append(d.as_str());
    push_char(out, dir);
    assert(final(out)@ =~= old(out)@ + (if dir == 'C' {
        move_right(n as nat)
    } else {
        move_left(n as nat)
    }));
}

fn push_erase(out: &mut String)
    ensures
        final(out)@ == old(out)@ + erase(),
{
    push_char(out, '\x1b');
    push_char(out, '[');
    push_char(out, 'J');
    assert(final(out)@ =~= old(out)@ + erase());
}

fn chars_of_string(s: &String) -> (r: Vec<char>)
    ensures
        r@ == s@,
{
    crate::lexer::chars_of(s.as_str())
}

impl Display {
    pub closed spec fn wf(&self) -> bool {
        &&& self.cur <= self.cmd@.len()
        &&& self.escape <= 2
    }

    /// What a well-formed editor guarantees of its view: the cursor lies
    /// within the buffer and an escape sequence has at most two steps.
    pub proof fn lemma_wf(&self)
        requires
            self.wf(),
        ensures
            self@.cur <= self@.cmd.len(),
            self@.escape <= 2,
    {
    }

    pub fn new() -> (r: Display)
        ensures
            r.wf(),
            r@ == (DisplayV { cmd: Seq::empty(), cur: 0, history_cur: None, suggestion: None, escape: 0 }),
    {
        Display { cmd: Vec::new(), cur: 0, history_cur: None, suggestion: None, escape: 0 }
    }

    /// Empties the buffer.
    pub fn clear(&mut self)
        requires
            old(self).wf(),
        ensures
            final(self).wf(),
            final(self)@ == (DisplayV { cmd: Seq::empty(), cur: 0, ..old(self)@ }),
    {
        self.cmd = Vec::new();
        self.cur = 0;
    }

    /// Sets the suggestion after a completion: the part of the top
    /// candidate past what has been typed of it, when there is such a part.
    pub fn set_suggestion(&mut self, typed: &str, top: Option<&String>)
        requires
            old(self).wf(),
        ensures
            final(self).wf(),
            final(self)@ == (DisplayV {
                suggestion: match top {
                    Some(t) => if typed@.len() < t@.len() {
                        Some(t@.skip(typed@.len() as int))
                    } else {
                        None
                    },
                    None => None,
                },
                ..old(self)@
            }),
    {
        self.suggestion = match top {
            Some(t) => {
                let tc = chars_of_string(t);
                let k = typed.unicode_len();
                if k < tc.len() {
                    let mut v: Vec<char> = Vec::new();
                    let mut i = k;
                    while i < tc.len()
                        invariant
                            k <= i <= tc@.len(),
                            v@ == tc@.subrange(k as int, i as int),
                        decreases tc.len() - i,
                    {
                        v.push(tc[i]);
                        i += 1;
                        assert(v@ =~= tc@.subrange(k as int, i as int));
                    }
                    assert(v@ =~= tc@.skip(k as int));
                    Some(v)
                } else {
                    None
                }
            },
            None => None,
        };
    }

    /// The pending suggestion, empty when there is none.
    pub fn suggestion_text(&self) -> (r: String)
        ensures
            r@ == match self@.suggestion {
                Some(s) => s,
                None => Seq::empty(),
            },
    {
        match &self.suggestion {
            Some(s) => string_of(s),
            None => String::new(),
        }
    }

    /// Takes one character typed in raw mode.
    pub fn key(&mut self, ch: char, history: &Vec<(i32, String)>) -> (r: (String, Option<ReadEnum>))
        requires
            old(self).wf(),
        ensures
            final(self).wf(),
            (final(self)@, r.0@, event_view(r.1)) == step(old(self)@, ch, history@),
    {
        let ghost d = self@;
        let mut out = String::new();
        if self.escape == 1 && ch == '[' {
            self.escape = 2;
            return (out, None);
        }
        if self.escape == 2 {
            self.escape = 0;
            if ch == 'A' || ch == 'B' {
                let n = history.len();
                let at: Option<usize> = if n == 0 {
                    None
                } else if ch == 'A' {
                    match self.history_cur {
                        Some(x) => if x == 0 {
                            None
                        } else if x - 1 < n {
                            Some(x - 1)
                        } else {
                            Some(n - 1)
                        },
                        None => Some(n - 1),
                    }
                } else {
                    match self.history_cur {
                        Some(x) => if x >= n - 1 {
                            None
                        } else {
                            Some(x + 1)
                        },
                        None => Some(0),
                    }
                };
                let back = self.cmd.len() - self.cur;
                if back != 0 {
                    push_move(&mut out, back, 'D');
                }
                push_erase(&mut out);
                self.history_cur = at;
                self.cur = 0;
                match at {
                    Some(i) => {
                        let text = &history[i].1;
                        out.append(text.as_str());
                        self.cmd = chars_of_string(text);
                    },
                    None => {
                        self.cmd = Vec::new();
                    },
                }
                proof {
                    assert(self@.cmd == step(d, ch, history@).0.cmd);
                }
                return (out, None);
            }
            if ch == 'C' && self.cur != 0 {
                self.cur = self.cur - 1;
                push_char(&mut out, '\x1b');
                push_char(&mut out, '[');
                push_char(&mut out, 'C');
                assert(out@ =~= seq![esc(), '[', 'C']);
            } else if ch == 'D' && self.cur < self.cmd.len() {
                self.cur = self.cur + 1;
                push_char(&mut out, '\x1b');
                push_char(&mut out, '[');
                push_char(&mut out, 'D');
                assert(out@ =~= seq![esc(), '[', 'D']);
            }
            return (out, None);
        }
        self.escape = 0;
        let p = self.cmd.len() - self.cur;
        if ch == '\n' || ch == '\r' {
            if self.cur != 0 {
                push_move(&mut out, self.cur, 'C');
            }
            push_erase(&mut out);
            push_char(&mut out, '\n');
            push_char(&mut out, '\r');
            let line = string_of(&self.cmd);
            self.cmd = Vec::new();
            self.cur = 0;
            self.history_cur = None;
            assert(out@ =~= to_end(d.cur) + erase() + seq!['\n', '\r']);
            return (out, Some(ReadEnum::Command(line)));
        }
        if ch == '\t' {
            if self.cur != 0 {
                push_move(&mut out, self.cur, 'C');
            }
            self.cur = 0;
            let ghost before = out@;
            match &self.suggestion {
                Some(s) => {
                    append_chars(&mut out, s, 0);
                    let mut i: usize = 0;
                    let ghost c0 = self.cmd@;
                    let ghost others = (self.cur, self.escape, self.history_cur);
                    while i < s.len()
                        invariant
                            i <= s@.len(),
                            self.cmd@ == c0 + s@.take(i as int),
                            (self.cur, self.escape, self.history_cur) == others,
                        decreases s.len() - i,
                    {
                        self.cmd.push(s[i]);
                        i += 1;
                        assert(self.cmd@ =~= c0 + s@.take(i as int));
                    }
                    assert(s@.take(s@.len() as int) =~= s@);
                    assert(s@.skip(0) =~= s@);
                },
                None => {
                    assert(self.cmd@ =~= d.cmd + Seq::<char>::empty());
                    assert(out@ =~= before + Seq::<char>::empty());
                },
            }
            self.suggestion = None;
            return (out, None);
        }
        if ch == '\x7f' {
            if p > 0 {
                self.cmd.remove(p - 1);
                push_char(&mut out, '\x1b');
                push_char(&mut out, '[');
                push_char(&mut out, 'D');
                push_erase(&mut out);
                append_chars(&mut out, &self.cmd, p - 1);
                if self.cur != 0 {
                    push_move(&mut out, self.cur, 'D');
                }
                assert(d.cmd.remove(p - 1).skip(p - 1) =~= d.cmd.skip(p as int));
                assert(out@ =~= seq![esc(), '[', 'D'] + erase() + d.cmd.skip(p as int) + back_by(d.cur));
            }
            let line = string_of(&self.cmd);
            return (out, Some(ReadEnum::Comp(line)));
        }
        if ch == '\x1b' {
            self.escape = 1;
            return (out, None);
        }
        if (ch as u32) < 0x20 {
            return (out, None);
        }
        self.cmd.insert(p, ch);
        push_erase(&mut out);
        push_char(&mut out, ch);
        let n2 = self.cmd.len();
        assert(n2 == d.cmd.len() + 1);
        append_chars(&mut out, &self.cmd, p + 1);
        if self.cur != 0 {
            push_move(&mut out, self.cur, 'D');
        }
        assert(d.cmd.insert(p as int, ch).skip(p + 1) =~= d.cmd.skip(p as int));
        assert(out@ =~= erase() + seq![ch] + d.cmd.skip(p as int) + back_by(d.cur));
        let line = string_of(&self.cmd);
        (out, Some(ReadEnum::Comp(line)))
    }
}

} // verus!
