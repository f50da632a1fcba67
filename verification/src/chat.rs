//! The chat window's state and decisions: the four input fields, the
//! conversation, the status line, the request in flight, and what each key,
//! click, wheel turn and finished request does to them. Drawing, the clipboard,
//! the keyboard map and the network belong to the application shell.
use vstd::prelude::*;
use crate::text::{
    chars_of, chars_eq, string_from_chars, trim, trim_span, is_control, char_is_control,
    utf8_width, char_utf8_width, utf8_len, utf8_len_exec, lemma_utf8_len_prefix, push_str,
};
use crate::protocol::{
    Endpoint, Message, Response, endpoint_spec, request_spec, answer_spec, message_views,
    message_view, request, answer,
};
use crate::transport::{Job, JobView, wipe_chars};
use crate::json::json_document;

verus! {

// ---------------------------------------------------------------------------
// Wrapping text into lines
// ---------------------------------------------------------------------------

/// The lines that wrapping gives for `t` from position `i` on, `cur` being the
/// line filled so far: a newline ends the line, and a character that would be
/// the `width + 1`-th of its line starts a new one.
pub open spec fn wrap_from(t: Seq<char>, width: nat, i: int, cur: Seq<char>) -> Seq<Seq<char>>
    decreases t.len() - i,
{
    if i < 0 || i >= t.len() {
        seq![cur]
    } else if t[i] == '\n' {
        seq![cur] + wrap_from(t, width, i + 1, Seq::empty())
    } else if cur.len() >= width {
        seq![cur] + wrap_from(t, width, i + 1, seq![t[i]])
    } else {
        wrap_from(t, width, i + 1, cur.push(t[i]))
    }
}

/// The lines of `t` wrapped at `width` characters.
pub open spec fn wrap_lines(t: Seq<char>, width: nat) -> Seq<Seq<char>> {
    wrap_from(t, width, 0, Seq::empty())
}

pub open spec fn labelled(out: Seq<(bool, String)>) -> Seq<(bool, Seq<char>)> {
    out.map_values(|e: (bool, String)| (e.0, e.1@))
}

pub open spec fn with_label(lines: Seq<Seq<char>>, label: bool) -> Seq<(bool, Seq<char>)> {
    lines.map_values(|l: Seq<char>| (label, l))
}

/// Appends the lines of `text` wrapped at `width` characters to `out`, each
/// marked with `label`.
pub fn wrap(text: &str, width: usize, label: bool, out: &mut Vec<(bool, String)>)
    ensures
        labelled(final(out)@) == labelled(old(out)@) + with_label(
            wrap_lines(text@, width as nat),
            label,
        ),
{
    let t = chars_of(text);
    let ghost start = labelled(out@);
    let mut cur: Vec<char> = Vec::new();
    let mut i: usize = 0;
    while i < t.len()
        invariant
            i <= t@.len(),
            t@ == text@,
            start + with_label(wrap_lines(text@, width as nat), label) == labelled(out@)
                + with_label(wrap_from(t@, width as nat, i as int, cur@), label),
        decreases t@.len() - i,
    {
        let c = t[i];
        let ghost before = labelled(out@);
        let ghost cur0 = cur@;
        if c == '\n' {
            out.push((label, string_from_chars(cur.as_slice())));
            cur = Vec::new();
            proof {
                let rest = wrap_from(t@, width as nat, i + 1, Seq::empty());
                assert(labelled(out@) =~= before.push((label, cur0)));
                assert(with_label(seq![cur0] + rest, label) =~= seq![(label, cur0)] + with_label(
                    rest,
                    label,
                ));
                assert(before + with_label(seq![cur0] + rest, label) =~= labelled(out@)
                    + with_label(rest, label));
            }
        } else if cur.len() >= width {
            out.push((label, string_from_chars(cur.as_slice())));
            cur = Vec::new();
            cur.push(c);
            proof {
                let rest = wrap_from(t@, width as nat, i + 1, seq![c]);
                assert(cur@ =~= seq![c]);
                assert(labelled(out@) =~= before.push((label, cur0)));
                assert(with_label(seq![cur0] + rest, label) =~= seq![(label, cur0)] + with_label(
                    rest,
                    label,
                ));
                assert(before + with_label(seq![cur0] + rest, label) =~= labelled(out@)
                    + with_label(rest, label));
            }
        } else {
            cur.push(c);
        }
        i = i + 1;
    }
    let ghost before = labelled(out@);
    let ghost cur0 = cur@;
    out.push((label, string_from_chars(cur.as_slice())));
    assert(labelled(out@) =~= before.push((label, cur0)));
    assert(with_label(seq![cur0], label) =~= seq![(label, cur0)]);
    assert(labelled(out@) =~= before + with_label(seq![cur0], label));
}

/// The lines joined back together.
pub open spec fn concat_lines(lines: Seq<Seq<char>>) -> Seq<char>
    decreases lines.len(),
{
    if lines.len() == 0 {
        Seq::empty()
    } else {
        lines[0] + concat_lines(lines.drop_first())
    }
}

/// The characters of `t` from position `i` on, without newlines.
pub open spec fn without_newlines(t: Seq<char>, i: int) -> Seq<char>
    decreases t.len() - i,
{
    if i < 0 || i >= t.len() {
        Seq::empty()
    } else if t[i] == '\n' {
        without_newlines(t, i + 1)
    } else {
        seq![t[i]] + without_newlines(t, i + 1)
    }
}

/// The longest line that wrapping at `width` produces.
pub open spec fn line_bound(width: nat) -> nat {
    if width == 0 {
        1
    } else {
        width
    }
}

pub open spec fn no_newline(l: Seq<char>) -> bool {
    forall|k: int| 0 <= k < l.len() ==> l[k] != '\n'
}

proof fn lemma_wrap_from(t: Seq<char>, width: nat, i: int, cur: Seq<char>)
    requires
        0 <= i,
        no_newline(cur),
        cur.len() <= line_bound(width),
    ensures
        concat_lines(wrap_from(t, width, i, cur)) == cur + without_newlines(t, i),
        forall|k: int|
            0 <= k < wrap_from(t, width, i, cur).len() ==> no_newline(
                #[trigger] wrap_from(t, width, i, cur)[k],
            ) && wrap_from(t, width, i, cur)[k].len() <= line_bound(width),
    decreases t.len() - i,
{
    let lines = wrap_from(t, width, i, cur);
    if i >= t.len() {
        assert(lines.drop_first() =~= Seq::<Seq<char>>::empty());
        assert(concat_lines(lines.drop_first()) == Seq::<char>::empty());
        assert(without_newlines(t, i) == Seq::<char>::empty());
        assert(concat_lines(lines) =~= cur + without_newlines(t, i));
    } else if t[i] == '\n' {
        let rest = wrap_from(t, width, i + 1, Seq::empty());
        lemma_wrap_from(t, width, i + 1, Seq::empty());
        assert(lines.drop_first() =~= rest);
        assert(concat_lines(lines) =~= cur + without_newlines(t, i));
        assert forall|k: int| 0 <= k < lines.len() implies no_newline(#[trigger] lines[k])
            && lines[k].len() <= line_bound(width) by {
            if k > 0 {
                assert(lines[k] == rest[k - 1]);
            }
        }
    } else if cur.len() >= width {
        let rest = wrap_from(t, width, i + 1, seq![t[i]]);
        lemma_wrap_from(t, width, i + 1, seq![t[i]]);
        assert(lines.drop_first() =~= rest);
        assert(concat_lines(lines) =~= cur + without_newlines(t, i));
        assert forall|k: int| 0 <= k < lines.len() implies no_newline(#[trigger] lines[k])
            && lines[k].len() <= line_bound(width) by {
            if k > 0 {
                assert(lines[k] == rest[k - 1]);
            }
        }
    } else {
        lemma_wrap_from(t, width, i + 1, cur.push(t[i]));
        assert(cur.push(t[i]) + without_newlines(t, i + 1) =~= cur + without_newlines(t, i));
    }
}

/// Wrapping loses and adds nothing but line breaks: the lines hold no newline,
/// none is longer than `width` characters (one, for a width of 0), and joined
/// together they give the text without its newlines.
pub proof fn lemma_wrap_lines(t: Seq<char>, width: nat)
    ensures
        concat_lines(wrap_lines(t, width)) == without_newlines(t, 0),
        forall|k: int|
            0 <= k < wrap_lines(t, width).len() ==> no_newline(#[trigger] wrap_lines(t, width)[k])
                && wrap_lines(t, width)[k].len() <= line_bound(width),
{
    lemma_wrap_from(t, width, 0, Seq::empty());
    assert(Seq::<char>::empty() + without_newlines(t, 0) =~= without_newlines(t, 0));
}

// ---------------------------------------------------------------------------
// The chat window
// ---------------------------------------------------------------------------

/// The largest window width or height the layout arithmetic takes.
pub const MAX_EXTENT: u32 = 715_827_882;

/// The most bytes a field holds.
pub open spec fn field_limit(i: nat) -> nat {
    if i == 3 {
        8000
    } else if i == 2 {
        256
    } else {
        4096
    }
}

/// A key press, as the keyboard map reports it (with Ctrl only `SelectAll`).
pub enum Key {
    /// Ctrl+A: the next typed text replaces the focused field.
    SelectAll,
    Tab,
    Enter { shift: bool },
    Escape,
    Backspace,
    Up,
    Down,
    /// A key that types the byte.
    Printable(u8),
}

/// A request in flight, with the endpoint it goes to (host, authority, port, base).
pub type JobInfo = (JobView, Seq<char>, Seq<char>, u16, Seq<char>);

/// The state of the chat window.
pub struct ChatView {
    /// API URL, API key, model ID, message being written.
    pub fields: Seq<Seq<char>>,
    pub focus: nat,
    /// The focused field is selected: typing replaces it.
    pub selected: bool,
    /// The conversation as (role, text).
    pub messages: Seq<(Seq<char>, Seq<char>)>,
    pub status: Seq<char>,
    /// The model list of a connection test, shown in place of the conversation.
    pub result: Seq<char>,
    pub job: Option<JobInfo>,
    /// The request in flight lists models.
    pub models: bool,
    pub scroll: nat,
    pub width: nat,
    pub height: nat,
}

impl ChatView {
    pub open spec fn inv(self) -> bool {
        &&& self.fields.len() == 4
        &&& self.focus < 4
        &&& forall|i: int| 0 <= i < 4 ==> utf8_len(#[trigger] self.fields[i]) <= field_limit(
            i as nat,
        )
        &&& self.width <= MAX_EXTENT
        &&& self.height <= MAX_EXTENT
    }
}

/// Whether typing `c` into field `focus` keeps it: no control characters,
/// except newlines in the message.
pub open spec fn accepted(c: char, focus: nat) -> bool {
    !is_control(c) || (c == '\n' && focus == 3)
}

/// Field `f` after typing `t` from position `i` on: characters that are not
/// accepted are skipped, and typing stops at the first that would not fit in
/// `limit` bytes.
pub open spec fn typed_from(f: Seq<char>, t: Seq<char>, i: int, limit: nat, focus: nat) -> Seq<char>
    decreases t.len() - i,
{
    if i < 0 || i >= t.len() {
        f
    } else if !accepted(t[i], focus) {
        typed_from(f, t, i + 1, limit, focus)
    } else if utf8_len(f) + utf8_width(t[i]) > limit {
        f
    } else {
        typed_from(f.push(t[i]), t, i + 1, limit, focus)
    }
}

/// Changing a setting starts a new conversation.
pub open spec fn settings_changed(v: ChatView) -> ChatView {
    ChatView {
        messages: Seq::empty(),
        result: Seq::empty(),
        status: "Settings changed. New chat."@,
        ..v
    }
}

/// Typing the text `t` into the focused field.
pub open spec fn edit_next(v: ChatView, t: Seq<char>) -> ChatView {
    if v.job is Some {
        v
    } else {
        let start = if v.selected {
            Seq::empty()
        } else {
            v.fields[v.focus as int]
        };
        let typed = typed_from(start, t, 0, field_limit(v.focus), v.focus);
        let v2 = ChatView { fields: v.fields.update(v.focus as int, typed), selected: false, ..v };
        if v.focus < 3 {
            settings_changed(v2)
        } else {
            v2
        }
    }
}

/// Starting a request: a model listing (`models`) or a chat with the message
/// being written. A request in flight is cancelled instead.
pub open spec fn start_next(v: ChatView, models: bool, now: int, wall: u64) -> ChatView {
    if v.job is Some {
        ChatView { job: None, status: "Request cancelled."@, ..v }
    } else {
        match endpoint_spec(v.fields[0]) {
            Err(e) => ChatView { status: e@, ..v },
            Ok((host, authority, port, base)) => if !models && trim(v.fields[3]).len() == 0 {
                ChatView { status: "Please enter a message."@, ..v }
            } else {
                let rows = if models {
                    v.messages
                } else {
                    v.messages.push(("user"@, v.fields[3]))
                };
                match request_spec(authority, base, v.fields[1], v.fields[2], rows, models) {
                    Err(e) => ChatView { status: e@, ..v },
                    Ok(bytes) => ChatView {
                        job: Some(
                            (
                                JobView {
                                    stage: 0,
                                    request: bytes,
                                    outgoing: Seq::empty(),
                                    offset: 0,
                                    flight: Seq::empty(),
                                    encrypted: Seq::empty(),
                                    started: now,
                                    last_data: now,
                                    wall,
                                },
                                host,
                                authority,
                                port,
                                base,
                            ),
                        ),
                        models,
                        status: if models {
                            "Testing connection ..."@
                        } else {
                            "Model is responding ... (cancel at any time)"@
                        },
                        ..v
                    },
                }
            },
        }
    }
}

/// Moving the focus to the next field.
pub open spec fn next_field(v: ChatView) -> ChatView {
    ChatView { focus: (v.focus + 1) % 4, selected: false, ..v }
}

pub open spec fn focus_on(v: ChatView, f: nat) -> ChatView {
    ChatView { focus: f, selected: false, ..v }
}

pub open spec fn backspace_next(v: ChatView) -> ChatView {
    if v.job is Some {
        v
    } else {
        let f = v.fields[v.focus as int];
        let v2 = if v.selected {
            ChatView { fields: v.fields.update(v.focus as int, Seq::empty()), selected: false, ..v }
        } else if f.len() > 0 {
            ChatView { fields: v.fields.update(v.focus as int, f.drop_last()), ..v }
        } else {
            v
        };
        if v.focus < 3 {
            ChatView { messages: Seq::empty(), result: Seq::empty(), ..v2 }
        } else {
            v2
        }
    }
}

/// The text a printable byte types: the character for ASCII, nothing otherwise.
pub open spec fn printable_text(b: u8) -> Seq<char> {
    if b < 128 {
        seq![b as char]
    } else {
        Seq::empty()
    }
}

pub open spec fn key_next(v: ChatView, k: Key, now: int, wall: u64) -> ChatView {
    match k {
        Key::SelectAll => ChatView { selected: true, ..v },
        Key::Tab => next_field(v),
        Key::Enter { shift } => if v.focus == 3 && !shift {
            start_next(v, false, now, wall)
        } else if v.focus == 3 {
            edit_next(v, seq!['\n'])
        } else {
            next_field(v)
        },
        Key::Escape => ChatView { job: None, status: "Request cancelled."@, ..v },
        Key::Backspace => backspace_next(v),
        Key::Up => ChatView { scroll: if v.scroll >= 2 { (v.scroll - 2) as nat } else { 0 }, ..v },
        Key::Down => ChatView {
            scroll: if v.scroll + 2 <= usize::MAX { v.scroll + 2 } else { usize::MAX as nat },
            ..v
        },
        Key::Printable(b) => edit_next(v, printable_text(b)),
    }
}

/// A click at (`x`, `y`): the fields, the three buttons under them, the
/// message field and the send button at the bottom.
pub open spec fn click_next(v: ChatView, x: int, y: int, now: int, wall: u64) -> ChatView {
    if 82 <= y < 126 {
        focus_on(v, 0)
    } else if 156 <= y < 200 {
        focus_on(
            v,
            if x < (v.width * 3) / 5 {
                1
            } else {
                2
            },
        )
    } else if 218 <= y < 258 {
        if x < 220 {
            start_next(v, true, now, wall)
        } else if x < 420 {
            ChatView {
                job: None,
                messages: Seq::empty(),
                result: Seq::empty(),
                fields: v.fields.update(3, Seq::empty()),
                scroll: 0,
                status: "New chat."@,
                ..v
            }
        } else if x < 640 {
            ChatView {
                job: None,
                fields: v.fields.update(1, Seq::empty()),
                status: "API key cleared."@,
                ..v
            }
        } else {
            v
        }
    } else if y >= v.height - 100 && y < v.height - 40 {
        if x >= v.width - 150 {
            start_next(v, false, now, wall)
        } else {
            focus_on(v, 3)
        }
    } else {
        v
    }
}

pub open spec fn wheel_next(v: ChatView, delta_y: int) -> ChatView {
    if delta_y > 0 {
        ChatView {
            scroll: if v.scroll + 3 <= usize::MAX { v.scroll + 3 } else { usize::MAX as nat },
            ..v
        }
    } else {
        ChatView { scroll: if v.scroll >= 3 { (v.scroll - 3) as nat } else { 0 }, ..v }
    }
}

/// A complete reply with status `status` and body `body`.
pub open spec fn reply_next(v: ChatView, status: u16, body: Seq<u8>) -> ChatView {
    let v0 = ChatView { job: None, ..v };
    match answer_spec(status, json_document(body), v.models) {
        Ok(s) => if v.models {
            ChatView {
                result: s,
                status: "Connection successful. Read the model names below and enter one above."@,
                scroll: 0,
                ..v0
            }
        } else {
            ChatView {
                messages: v.messages.push(("user"@, v.fields[3])).push(("assistant"@, s)),
                fields: v.fields.update(3, Seq::empty()),
                result: Seq::empty(),
                status: "Response received."@,
                focus: 3,
                scroll: usize::MAX as nat,
                ..v0
            }
        },
        Err(e) => ChatView { status: e, ..v0 },
    }
}

/// The chat window.
pub struct Chat {
    url: Vec<char>,
    key: Vec<char>,
    model: Vec<char>,
    input: Vec<char>,
    focus: usize,
    selected: bool,
    messages: Vec<Message>,
    status: String,
    result: String,
    job: Option<Job>,
    models: bool,
    scroll: usize,
    width: u32,
    height: u32,
}

pub open spec fn job_info(j: Job) -> JobInfo {
    let e = j.endpoint_spec();
    (j@, e.host@, e.authority@, e.port, e.base@)
}

impl View for Chat {
    type V = ChatView;

    closed spec fn view(&self) -> ChatView {
        ChatView {
            fields: seq![self.url@, self.key@, self.model@, self.input@],
            focus: self.focus as nat,
            selected: self.selected,
            messages: message_views(self.messages@),
            status: self.status@,
            result: self.result@,
            job: match self.job {
                Some(j) => Some(job_info(j)),
                None => None,
            },
            models: self.models,
            scroll: self.scroll as nat,
            width: self.width as nat,
            height: self.height as nat,
        }
    }
}

impl Chat {
    /// A window with the OpenAI base URL filled in and nothing else.
    pub fn new() -> (r: Chat)
        ensures
            r@.inv(),
            r@ == (ChatView {
                fields: seq!["https://api.openai.com/v1"@, Seq::empty(), Seq::empty(), Seq::empty()],
                focus: 0,
                selected: false,
                messages: Seq::empty(),
                status: "Enter the API URL, key and model."@,
                result: Seq::empty(),
                job: None,
                models: false,
                scroll: 0,
                width: 1040,
                height: 660,
            }),
    {
        let url = chars_of("https://api.openai.com/v1");
        proof {
            reveal_strlit("https://api.openai.com/v1");
            assert(utf8_len(url@) <= 4096) by {
                lemma_utf8_len_bound(url@);
            }
        }
        let r = Chat {
            url,
            key: Vec::new(),
            model: Vec::new(),
            input: Vec::new(),
            focus: 0,
            selected: false,
            messages: Vec::new(),
            status: "Enter the API URL, key and model.".to_owned(),
            result: String::new(),
            job: None,
            models: false,
            scroll: 0,
            width: 1040,
            height: 660,
        };
        proof {
            assert(message_views(Seq::<Message>::empty()) =~= Seq::empty());
            assert forall|i: int| 0 <= i < 4 implies utf8_len(#[trigger] r@.fields[i])
                <= field_limit(i as nat) by {
                if i > 0 {
                    assert(r@.fields[i] =~= Seq::<char>::empty());
                }
            }
        }
        r
    }

    /// Whether a request is in flight.
    pub fn busy(&self) -> (r: bool)
        ensures
            r == self@.job is Some,
    {
        self.job.is_some()
    }

    /// The fields in view order: URL, key, model, message.
    pub fn field(&self, i: usize) -> (r: &[char])
        requires
            i < 4,
        ensures
            r@ == self@.fields[i as int],
    {
        if i == 0 {
            self.url.as_slice()
        } else if i == 1 {
            self.key.as_slice()
        } else if i == 2 {
            self.model.as_slice()
        } else {
            self.input.as_slice()
        }
    }

    pub fn focus(&self) -> (r: usize)
        ensures
            r == self@.focus,
    {
        self.focus
    }

    pub fn selected(&self) -> (r: bool)
        ensures
            r == self@.selected,
    {
        self.selected
    }

    pub fn status(&self) -> (r: &str)
        ensures
            r@ == self@.status,
    {
        self.status.as_str()
    }

    pub fn scroll(&self) -> (r: usize)
        ensures
            r == self@.scroll,
    {
        self.scroll
    }

    /// Takes the request in flight out of the window, for the shell to drive.
    pub fn take_job(&mut self) -> (r: Option<Job>)
        requires
            old(self)@.inv(),
        ensures
            final(self)@.inv(),
            final(self)@ == (ChatView { job: None, ..old(self)@ }),
            match r {
                Some(j) => old(self)@.job == Some(job_info(j)),
                None => old(self)@.job is None,
            },
    {
        self.job.take()
    }

    /// Puts a request that is still in flight back into the window.
    pub fn restore_job(&mut self, job: Job)
        requires
            old(self)@.inv(),
        ensures
            final(self)@.inv(),
            final(self)@ == (ChatView { job: Some(job_info(job)), ..old(self)@ }),
    {
        self.job = Some(job);
    }

    fn cancel_job(&mut self)
        ensures
            final(self)@ == (ChatView { job: None, ..old(self)@ }),
    {
        if let Some(mut j) = self.job.take() {
            j.wipe();
        }
    }

    fn wipe_field(&mut self, i: usize)
        requires
            i < 4,
        ensures
            final(self)@ == (ChatView {
                fields: old(self)@.fields.update(i as int, Seq::empty()),
                ..old(self)@
            }),
    {
        if i == 0 {
            wipe_chars(&mut self.url);
            assert(self.url@ =~= Seq::<char>::empty());
        } else if i == 1 {
            wipe_chars(&mut self.key);
            assert(self.key@ =~= Seq::<char>::empty());
        } else if i == 2 {
            wipe_chars(&mut self.model);
            assert(self.model@ =~= Seq::<char>::empty());
        } else {
            wipe_chars(&mut self.input);
            assert(self.input@ =~= Seq::<char>::empty());
        }
        proof {
            assert(self@.fields =~= old(self)@.fields.update(i as int, Seq::empty()));
        }
    }

    fn take_field(&mut self, i: usize) -> (r: Vec<char>)
        requires
            i < 4,
        ensures
            r@ == old(self)@.fields[i as int],
            final(self)@ == (ChatView {
                fields: old(self)@.fields.update(i as int, Seq::empty()),
                ..old(self)@
            }),
    {
        let mut f: Vec<char> = Vec::new();
        if i == 0 {
            core::mem::swap(&mut f, &mut self.url);
        } else if i == 1 {
            core::mem::swap(&mut f, &mut self.key);
        } else if i == 2 {
            core::mem::swap(&mut f, &mut self.model);
        } else {
            core::mem::swap(&mut f, &mut self.input);
        }
        proof {
            assert(self@.fields =~= old(self)@.fields.update(i as int, Seq::empty()));
        }
        f
    }

    fn put_field(&mut self, i: usize, f: Vec<char>)
        requires
            i < 4,
        ensures
            final(self)@ == (ChatView { fields: old(self)@.fields.update(i as int, f@), ..old(self)@ }),
    {
        if i == 0 {
            self.url = f;
        } else if i == 1 {
            self.key = f;
        } else if i == 2 {
            self.model = f;
        } else {
            self.input = f;
        }
        proof {
            assert(self@.fields =~= old(self)@.fields.update(i as int, f@));
        }
    }

    /// Types `text` into the focused field (also what a paste does). Nothing
    /// happens while a request is in flight.
    pub fn edit(&mut self, text: &str)
        requires
            old(self)@.inv(),
        ensures
            final(self)@.inv(),
            final(self)@ == edit_next(old(self)@, text@),
    {
        if self.job.is_some() {
            return;
        }
        let f = self.focus;
        if self.selected {
            self.wipe_field(f);
            self.selected = false;
        }
        let limit: usize = if f == 3 {
            8000
        } else if f == 2 {
            256
        } else {
            4096
        };
        let ghost mid = self@;
        let mut field = self.take_field(f);
        let ghost start = field@;
        assert(utf8_len(start) <= field_limit(f as nat)) by {
            if !old(self)@.selected {
                assert(start == old(self)@.fields[f as int]);
            } else {
                assert(start =~= Seq::<char>::empty());
            }
        }
        let t = chars_of(text);
        let mut used = utf8_len_exec(field.as_slice());
        let mut i: usize = 0;
        let mut done = false;
        while i < t.len() && !done
            invariant
                i <= t@.len(),
                t@ == text@,
                limit == field_limit(f as nat),
                used == utf8_len(field@),
                used <= limit,
                done ==> typed_from(start, t@, 0, limit as nat, f as nat) == field@,
                !done ==> typed_from(start, t@, 0, limit as nat, f as nat) == typed_from(
                    field@,
                    t@,
                    i as int,
                    limit as nat,
                    f as nat,
                ),
            decreases t@.len() - i + (if done {
                0int
            } else {
                1int
            }),
        {
            let c = t[i];
            if !char_is_control(c) || (c == '\n' && f == 3) {
                let w = char_utf8_width(c);
                if used + w > limit {
                    done = true;
                } else {
                    let ghost before = field@;
                    field.push(c);
                    proof {
                        assert(field@.drop_last() =~= before);
                    }
                    used = used + w;
                    i = i + 1;
                }
            } else {
                i = i + 1;
            }
        }
        self.put_field(f, field);
        if f < 3 {
            self.messages.clear();
            self.result = String::new();
            self.status = "Settings changed. New chat.".to_owned();
            proof {
                assert(message_views(self.messages@) =~= Seq::empty());
            }
        }
        proof {
            let goal = edit_next(old(self)@, text@);
            assert(self@.fields =~= goal.fields);
            assert(self@ =~= goal);
        }
    }

    /// Starts a model listing (`models`) or sends the message being written,
    /// at uptime `now` (milliseconds) and wall-clock time `wall`. A request in
    /// flight is cancelled instead.
    pub fn start(&mut self, models: bool, now: i64, wall: u64)
        requires
            old(self)@.inv(),
            now >= 0,
        ensures
            final(self)@.inv(),
            final(self)@ == start_next(old(self)@, models, now as int, wall),
    {
        if self.job.is_some() {
            self.cancel_job();
            self.status = "Request cancelled.".to_owned();
            return;
        }
        let url = string_from_chars(self.url.as_slice());
        let ep = match Endpoint::parse(url.as_str()) {
            Ok(e) => e,
            Err(e) => {
                self.status = e.to_owned();
                return;
            },
        };
        let (lo, hi) = trim_span(self.input.as_slice());
        if !models && lo == hi {
            self.status = "Please enter a message.".to_owned();
            return;
        }
        let mut rows: Vec<Message> = Vec::new();
        let mut i: usize = 0;
        while i < self.messages.len()
            invariant
                i <= self.messages@.len(),
                message_views(rows@) == message_views(self.messages@).subrange(0, i as int),
            decreases self.messages@.len() - i,
        {
            let m = &self.messages[i];
            let ghost prev = rows@;
            rows.push(Message { role: m.role, text: m.text.clone() });
            proof {
                assert(message_views(rows@) =~= message_views(prev).push(
                    message_view(self.messages@[i as int]),
                ));
                assert(message_views(rows@) =~= message_views(self.messages@).subrange(
                    0,
                    i + 1,
                ));
            }
            i = i + 1;
        }
        proof {
            assert(message_views(self.messages@).subrange(0, self.messages@.len() as int)
                =~= message_views(self.messages@));
        }
        if !models {
            let ghost before = rows@;
            rows.push(Message { role: "user", text: string_from_chars(self.input.as_slice()) });
            proof {
                assert(message_views(rows@) =~= message_views(before).push(
                    ("user"@, self.input@),
                ));
            }
        }
        let key = string_from_chars(self.key.as_slice());
        let model = string_from_chars(self.model.as_slice());
        match request(&ep, key.as_str(), model.as_str(), rows.as_slice(), models) {
            Ok(r) => {
                self.job = Some(Job::new(ep, r, now, wall));
                self.models = models;
                self.status = if models {
                    "Testing connection ...".to_owned()
                } else {
                    "Model is responding ... (cancel at any time)".to_owned()
                };
            },
            Err(e) => {
                self.status = e.to_owned();
            },
        }
    }

    /// A key press at uptime `now` and wall-clock time `wall`.
    pub fn key(&mut self, k: Key, now: i64, wall: u64)
        requires
            old(self)@.inv(),
            now >= 0,
        ensures
            final(self)@.inv(),
            final(self)@ == key_next(old(self)@, k, now as int, wall),
    {
        match k {
            Key::SelectAll => {
                self.selected = true;
            },
            Key::Tab => {
                self.focus = (self.focus + 1) % 4;
                self.selected = false;
            },
            Key::Enter { shift } => {
                if self.focus == 3 && !shift {
                    self.start(false, now, wall);
                } else if self.focus == 3 {
                    self.edit("\n");
                    proof {
                        reveal_strlit("\n");
                        assert("\n"@ =~= seq!['\n']);
                    }
                } else {
                    self.focus = (self.focus + 1) % 4;
                    self.selected = false;
                }
            },
            Key::Escape => {
                self.cancel_job();
                self.status = "Request cancelled.".to_owned();
            },
            Key::Backspace => {
                if self.job.is_none() {
                    let f = self.focus;
                    if self.selected {
                        self.wipe_field(f);
                        self.selected = false;
                    } else {
                        let mut field = self.take_field(f);
                        let ghost before = field@;
                        field.pop();
                        self.put_field(f, field);
                        proof {
                            if before.len() > 0 {
                                lemma_utf8_len_prefix(before, before.len() - 1);
                                assert(before.take(before.len() - 1) =~= before.drop_last());
                            }
                        }
                    }
                    if f < 3 {
                        self.messages.clear();
                        self.result = String::new();
                        proof {
                            assert(message_views(self.messages@) =~= Seq::empty());
                        }
                    }
                    proof {
                        let goal = backspace_next(old(self)@);
                        assert(self@.fields =~= goal.fields);
                        assert(self@ =~= goal);
                    }
                }
            },
            Key::Up => {
                self.scroll = self.scroll.saturating_sub(2);
            },
            Key::Down => {
                self.scroll = self.scroll.saturating_add(2);
            },
            Key::Printable(b) => {
                if b < 128 {
                    let mut t: Vec<char> = Vec::new();
                    t.push(b as char);
                    let s = string_from_chars(t.as_slice());
                    self.edit(s.as_str());
                    proof {
                        assert(t@ =~= printable_text(b));
                    }
                } else {
                    self.edit("");
                    proof {
                        reveal_strlit("");
                        assert(""@ =~= printable_text(b));
                    }
                }
            },
        }
    }
}

/// Who a message is from, as the transcript labels it.
pub open spec fn speaker(role: Seq<char>) -> Seq<char> {
    if role == "user"@ {
        "You"@
    } else {
        "Assistant"@
    }
}

/// The transcript lines of the messages: a label line, the wrapped text, an
/// empty line.
pub open spec fn message_lines(ms: Seq<(Seq<char>, Seq<char>)>, width: nat) -> Seq<
    (bool, Seq<char>),
>
    decreases ms.len(),
{
    if ms.len() == 0 {
        Seq::empty()
    } else {
        message_lines(ms.drop_last(), width) + seq![(true, speaker(ms.last().0))] + with_label(
            wrap_lines(ms.last().1, width),
            false,
        ) + seq![(false, Seq::empty())]
    }
}

/// What the conversation area shows, wrapped at `width` characters: the model
/// list of a connection test, an introduction while there is no conversation,
/// or the conversation. `true` marks a label line.
pub open spec fn transcript_spec(v: ChatView, width: nat) -> Seq<(bool, Seq<char>)> {
    if v.result.len() > 0 {
        with_label(wrap_lines(v.result, width), false)
    } else if v.messages.len() == 0 {
        with_label(
            wrap_lines(
                "Your AI chat in NONOS. Enter your API details and send a message."@,
                width,
            ),
            false,
        ) + with_label(wrap_lines("Key and history stay in RAM for this session only."@, width), false)
    } else {
        message_lines(v.messages, width)
    }
}

impl Chat {
    /// A click at (`x`, `y`) at uptime `now` and wall-clock time `wall`.
    pub fn click(&mut self, x: i32, y: i32, now: i64, wall: u64)
        requires
            old(self)@.inv(),
            now >= 0,
        ensures
            final(self)@.inv(),
            final(self)@ == click_next(old(self)@, x as int, y as int, now as int, wall),
    {
        let w = self.width as i64;
        let h = self.height as i64;
        let x = x as i64;
        let y = y as i64;
        if 82 <= y && y < 126 {
            self.focus = 0;
            self.selected = false;
        } else if 156 <= y && y < 200 {
            self.focus = if x < w * 3 / 5 {
                1
            } else {
                2
            };
            self.selected = false;
        } else if 218 <= y && y < 258 {
            if x < 220 {
                self.start(true, now, wall);
            } else if x < 420 {
                self.cancel_job();
                self.messages.clear();
                self.result = String::new();
                self.input.clear();
                self.scroll = 0;
                self.status = "New chat.".to_owned();
                proof {
                    assert(message_views(self.messages@) =~= Seq::empty());
                    let goal = click_next(old(self)@, x as int, y as int, now as int, wall);
                    assert(self@.fields =~= goal.fields);
                    assert(self@ =~= goal);
                }
            } else if x < 640 {
                self.cancel_job();
                self.wipe_field(1);
                self.status = "API key cleared.".to_owned();
                proof {
                    let goal = click_next(old(self)@, x as int, y as int, now as int, wall);
                    assert(self@.fields =~= goal.fields);
                    assert forall|i: int| 0 <= i < 4 implies utf8_len(#[trigger] self@.fields[i])
                        <= field_limit(i as nat) by {
                        if i == 1 {
                            assert(self@.fields[1] =~= Seq::<char>::empty());
                        }
                    }
                }
            }
        } else if y >= h - 100 && y < h - 40 {
            if x >= w - 150 {
                self.start(false, now, wall);
            } else {
                self.focus = 3;
                self.selected = false;
            }
        }
    }

    /// A wheel turn: down (`delta_y > 0`) scrolls on by three lines, up back.
    pub fn wheel(&mut self, delta_y: i32)
        requires
            old(self)@.inv(),
        ensures
            final(self)@.inv(),
            final(self)@ == wheel_next(old(self)@, delta_y as int),
    {
        if delta_y > 0 {
            self.scroll = self.scroll.saturating_add(3);
        } else {
            self.scroll = self.scroll.saturating_sub(3);
        }
    }

    /// The request in flight ended with the complete reply `r`.
    pub fn reply_arrived(&mut self, r: Response)
        requires
            old(self)@.inv(),
        ensures
            final(self)@.inv(),
            final(self)@ == reply_next(old(self)@, r.status, r.body@),
    {
        let status = r.status;
        let ghost body = r.body@;
        self.cancel_job();
        match answer(r, self.models) {
            Ok(s) => {
                if self.models {
                    self.result = s;
                    self.status =
                        "Connection successful. Read the model names below and enter one above.".to_owned();
                    self.scroll = 0;
                } else {
                    let text = self.take_field(3);
                    let ghost before = self.messages@;
                    self.messages.push(Message { role: "user", text: string_from_chars(text.as_slice()) });
                    self.messages.push(Message { role: "assistant", text: s });
                    self.result = String::new();
                    self.status = "Response received.".to_owned();
                    self.focus = 3;
                    self.scroll = usize::MAX;
                    proof {
                        assert(message_views(self.messages@) =~= message_views(before).push(
                            ("user"@, text@),
                        ).push(("assistant"@, s@)));
                        let goal = reply_next(old(self)@, status, body);
                        assert(self@.fields =~= goal.fields);
                        assert(self@ =~= goal);
                        assert forall|i: int| 0 <= i < 4 implies utf8_len(#[trigger] self@.fields[i])
                            <= field_limit(i as nat) by {
                            if i == 3 {
                                assert(self@.fields[3] =~= Seq::<char>::empty());
                            }
                        }
                    }
                }
            },
            Err(e) => {
                self.status = e;
            },
        }
    }

    /// The request in flight failed with the message `e`.
    pub fn request_failed(&mut self, e: &str)
        requires
            old(self)@.inv(),
        ensures
            final(self)@.inv(),
            final(self)@ == (ChatView { job: None, status: e@, ..old(self)@ }),
    {
        self.cancel_job();
        self.status = e.to_owned();
    }

    /// Closing the window: the request in flight is dropped and the API key
    /// erased.
    pub fn close(&mut self)
        requires
            old(self)@.inv(),
        ensures
            final(self)@.inv(),
            final(self)@ == (ChatView {
                job: None,
                fields: old(self)@.fields.update(1, Seq::empty()),
                ..old(self)@
            }),
    {
        self.cancel_job();
        self.wipe_field(1);
        proof {
            assert forall|i: int| 0 <= i < 4 implies utf8_len(#[trigger] self@.fields[i])
                <= field_limit(i as nat) by {
                if i == 1 {
                    assert(self@.fields[1] =~= Seq::<char>::empty());
                }
            }
        }
    }

    /// The window was resized.
    pub fn set_size(&mut self, width: u32, height: u32)
        requires
            old(self)@.inv(),
            width <= MAX_EXTENT,
            height <= MAX_EXTENT,
        ensures
            final(self)@.inv(),
            final(self)@ == (ChatView { width: width as nat, height: height as nat, ..old(self)@ }),
    {
        self.width = width;
        self.height = height;
    }

    /// Keeps the scroll position within `lines` lines of which `visible` fit.
    pub fn clamp_scroll(&mut self, lines: usize, visible: usize)
        requires
            old(self)@.inv(),
        ensures
            final(self)@.inv(),
            final(self)@ == (ChatView {
                scroll: clamped(old(self)@.scroll, lines as nat, visible as nat),
                ..old(self)@
            }),
    {
        let shown = if visible > 0 {
            visible
        } else {
            1
        };
        let limit = lines.saturating_sub(shown);
        if self.scroll > limit {
            self.scroll = limit;
        }
    }

    /// The lines of the conversation area wrapped at `width` characters.
    pub fn transcript(&self, width: usize) -> (r: Vec<(bool, String)>)
        ensures
            labelled(r@) == transcript_spec(self@, width as nat),
    {
        let mut lines: Vec<(bool, String)> = Vec::new();
        proof {
            assert(labelled(lines@) =~= Seq::empty());
        }
        if !self.result.as_str().is_empty() {
            wrap(self.result.as_str(), width, false, &mut lines);
            proof {
                assert(labelled(lines@) =~= transcript_spec(self@, width as nat));
            }
        } else if self.messages.len() == 0 {
            wrap(
                "Your AI chat in NONOS. Enter your API details and send a message.",
                width,
                false,
                &mut lines,
            );
            wrap("Key and history stay in RAM for this session only.", width, false, &mut lines);
            proof {
                assert(labelled(lines@) =~= transcript_spec(self@, width as nat));
            }
        } else {
            let user = chars_of("user");
            let mut i: usize = 0;
            while i < self.messages.len()
                invariant
                    i <= self.messages@.len(),
                    user@ == "user"@,
                    labelled(lines@) == message_lines(
                        message_views(self.messages@).subrange(0, i as int),
                        width as nat,
                    ),
                decreases self.messages@.len() - i,
            {
                let m = &self.messages[i];
                let ghost before = labelled(lines@);
                let role = chars_of(m.role);
                let label = if chars_eq(role.as_slice(), user.as_slice()) {
                    "You".to_owned()
                } else {
                    "Assistant".to_owned()
                };
                lines.push((true, label));
                let ghost with_head = labelled(lines@);
                wrap(m.text.as_str(), width, false, &mut lines);
                let ghost with_text = labelled(lines@);
                lines.push((false, String::new()));
                proof {
                    let ms = message_views(self.messages@);
                    let next = ms.subrange(0, i + 1);
                    assert(next.drop_last() =~= ms.subrange(0, i as int));
                    assert(next.last() == message_view(self.messages@[i as int]));
                    assert(with_head =~= before.push((true, speaker(m.role@))));
                    assert(labelled(lines@) =~= with_text.push((false, Seq::<char>::empty())));
                    assert(labelled(lines@) =~= message_lines(next, width as nat));
                }
                i = i + 1;
            }
            proof {
                assert(message_views(self.messages@).subrange(0, self.messages@.len() as int)
                    =~= message_views(self.messages@));
            }
        }
        lines
    }
}

// ---------------------------------------------------------------------------
// What the window shows
// ---------------------------------------------------------------------------

/// How many characters a field box `box_width` pixels wide shows.
pub open spec fn box_chars(box_width: nat) -> nat {
    if box_width >= 28 {
        ((box_width - 28) as nat) / 9
    } else {
        0
    }
}

/// The end of `value` that fits in `max` characters: its last `max` characters.
pub open spec fn tail_spec(value: Seq<char>, max: nat) -> Seq<char> {
    if value.len() <= max {
        value
    } else {
        value.subrange(value.len() - max, value.len() as int)
    }
}

/// The end of `value` that a field box `box_width` pixels wide shows, so that
/// the cursor end of what is typed stays visible.
pub fn visible_tail(value: &[char], box_width: u32) -> (r: String)
    ensures
        r@ == tail_spec(value@, box_chars(box_width as nat)),
{
    let max: usize = ((if box_width >= 28 {
        box_width - 28
    } else {
        0
    }) / 9) as usize;
    let skip: usize = if value.len() > max {
        value.len() - max
    } else {
        0
    };
    let mut out: Vec<char> = Vec::new();
    let mut i: usize = skip;
    while i < value.len()
        invariant
            skip <= i <= value@.len(),
            out@ == value@.subrange(skip as int, i as int),
        decreases value@.len() - i,
    {
        out.push(value[i]);
        i = i + 1;
        assert(out@ =~= value@.subrange(skip as int, i as int));
    }
    assert(value@.subrange(0, value@.len() as int) =~= value@);
    string_from_chars(out.as_slice())
}

/// What the key field shows: one `*` per character, at most 50.
pub open spec fn key_mask_spec(key: Seq<char>) -> Seq<char> {
    Seq::new(if key.len() <= 50 { key.len() } else { 50 }, |_i: int| '*')
}

/// The message as its one-line field shows it: each newline as ` / `.
pub open spec fn one_line(t: Seq<char>) -> Seq<char>
    decreases t.len(),
{
    if t.len() == 0 {
        Seq::empty()
    } else {
        one_line(t.drop_last()) + if t.last() == '\n' {
            " / "@
        } else {
            seq![t.last()]
        }
    }
}

/// The status line cut to what a window `width` pixels wide shows.
pub open spec fn status_shown_spec(status: Seq<char>, width: nat) -> Seq<char> {
    if status.len() <= width / 7 {
        status
    } else {
        status.take((width / 7) as int)
    }
}

/// The characters per transcript line in a window `width` pixels wide.
pub open spec fn text_columns(width: nat) -> nat {
    let c = if width >= 100 {
        ((width - 100) as nat) / 9
    } else {
        0
    };
    if c >= 10 {
        c
    } else {
        10
    }
}

/// The transcript lines that fit in a window `height` pixels high.
pub open spec fn text_rows(height: nat) -> nat {
    let bottom: nat = if height >= 120 {
        (height - 120) as nat
    } else {
        0
    };
    if bottom >= 300 {
        ((bottom - 300) as nat) / 23
    } else {
        0
    }
}

/// The scroll position kept within `lines` lines of which `visible` fit (at
/// least one counts as fitting).
pub open spec fn clamped(scroll: nat, lines: nat, visible: nat) -> nat {
    let shown: nat = if visible > 0 {
        visible
    } else {
        1
    };
    let limit: nat = if lines >= shown {
        (lines - shown) as nat
    } else {
        0
    };
    if scroll <= limit {
        scroll
    } else {
        limit
    }
}

/// The at most `rows` lines from line `first` on.
pub open spec fn window<T>(lines: Seq<T>, first: nat, rows: nat) -> Seq<T> {
    let end: int = if first + rows <= lines.len() {
        (first + rows) as int
    } else {
        lines.len() as int
    };
    lines.subrange(first as int, end)
}

impl Chat {
    /// What the key field shows in place of the key.
    pub fn key_mask(&self) -> (r: Vec<char>)
        ensures
            r@ == key_mask_spec(self@.fields[1]),
    {
        let n: usize = if self.key.len() <= 50 {
            self.key.len()
        } else {
            50
        };
        let mut out: Vec<char> = Vec::new();
        let mut i: usize = 0;
        while i < n
            invariant
                i <= n,
                out@ == Seq::new(i as nat, |_i: int| '*'),
            decreases n - i,
        {
            out.push('*');
            i = i + 1;
            assert(out@ =~= Seq::new(i as nat, |_i: int| '*'));
        }
        assert(out@ =~= key_mask_spec(self@.fields[1]));
        out
    }

    /// The message being written as its one-line field shows it.
    pub fn message_line(&self) -> (r: Vec<char>)
        ensures
            r@ == one_line(self@.fields[3]),
    {
        let mut out: Vec<char> = Vec::new();
        let mut i: usize = 0;
        while i < self.input.len()
            invariant
                i <= self.input@.len(),
                out@ == one_line(self.input@.subrange(0, i as int)),
            decreases self.input@.len() - i,
        {
            let c = self.input[i];
            let ghost next = self.input@.subrange(0, i + 1);
            assert(next.drop_last() =~= self.input@.subrange(0, i as int));
            if c == '\n' {
                push_str(&mut out, " / ");
            } else {
                out.push(c);
            }
            assert(out@ =~= one_line(next));
            i = i + 1;
        }
        assert(self.input@.subrange(0, self.input@.len() as int) =~= self.input@);
        out
    }

    /// The status line as a window of the current width shows it.
    pub fn status_shown(&self) -> (r: String)
        ensures
            r@ == status_shown_spec(self@.status, self@.width),
    {
        let all = chars_of(self.status.as_str());
        let n: usize = (self.width / 7) as usize;
        if all.len() <= n {
            string_from_chars(all.as_slice())
        } else {
            string_from_chars(&all.as_slice()[0..n])
        }
    }

    /// The transcript lines that the conversation area of the current window
    /// shows, once the scroll position is kept within the transcript.
    pub fn shown_lines(&mut self) -> (r: Vec<(bool, String)>)
        requires
            old(self)@.inv(),
        ensures
            final(self)@.inv(),
            final(self)@ == (ChatView {
                scroll: clamped(
                    old(self)@.scroll,
                    transcript_spec(old(self)@, text_columns(old(self)@.width)).len(),
                    text_rows(old(self)@.height),
                ),
                ..old(self)@
            }),
            labelled(r@) == window(
                transcript_spec(old(self)@, text_columns(old(self)@.width)),
                final(self)@.scroll,
                text_rows(old(self)@.height),
            ),
    {
        let w = self.width;
        let h = self.height;
        let c = (if w >= 100 {
            w - 100
        } else {
            0
        }) / 9;
        let columns: usize = (if c >= 10 {
            c
        } else {
            10
        }) as usize;
        let bottom: u32 = if h >= 120 {
            h - 120
        } else {
            0
        };
        let rows: usize = ((if bottom >= 300 {
            bottom - 300
        } else {
            0
        }) / 23) as usize;
        let lines = self.transcript(columns);
        self.clamp_scroll(lines.len(), rows);
        let first = self.scroll;
        let end: usize = if lines.len() - first >= rows {
            first + rows
        } else {
            lines.len()
        };
        let ghost all = labelled(lines@);
        let mut out: Vec<(bool, String)> = Vec::new();
        let mut i: usize = first;
        while i < end
            invariant
                first <= i <= end <= lines@.len(),
                all == labelled(lines@),
                labelled(out@) == all.subrange(first as int, i as int),
            decreases end - i,
        {
            let ghost before = out@;
            let line = &lines[i];
            let text = line.1.clone();
            out.push((line.0, text));
            proof {
                assert(all[i as int] == (lines@[i as int].0, lines@[i as int].1@));
                assert(out@ == before.push((lines@[i as int].0, text)));
                assert(labelled(out@) =~= labelled(before).push(all[i as int]));
            }
            i = i + 1;
            assert(labelled(out@) =~= all.subrange(first as int, i as int));
        }
        out
    }
}

/// While a request is in flight the fields cannot be changed: typing, pasting
/// and deleting leave the window as it is.
pub proof fn lemma_busy_window_keeps_fields(v: ChatView, t: Seq<char>)
    requires
        v.job is Some,
    ensures
        edit_next(v, t) == v,
        backspace_next(v) == v,
{
}

/// Changing the URL, the key or the model starts a new conversation: the
/// messages and a shown model list are dropped.
pub proof fn lemma_settings_change_starts_new_chat(v: ChatView, t: Seq<char>)
    requires
        v.job is None,
        v.focus < 3,
    ensures
        edit_next(v, t).messages.len() == 0,
        edit_next(v, t).result.len() == 0,
        backspace_next(v).messages.len() == 0,
        backspace_next(v).result.len() == 0,
{
}

/// Starting while a request is in flight cancels it and starts nothing.
pub proof fn lemma_start_while_busy_cancels(v: ChatView, models: bool, now: int, wall: u64)
    requires
        v.job is Some,
    ensures
        start_next(v, models, now, wall) == (ChatView {
            job: None,
            status: "Request cancelled."@,
            ..v
        }),
{
}

/// Escape cancels: whatever the state, the request in flight is dropped and
/// nothing else but the status changes.
pub proof fn lemma_escape_cancels(v: ChatView, now: int, wall: u64)
    ensures
        key_next(v, Key::Escape, now, wall) == (ChatView {
            job: None,
            status: "Request cancelled."@,
            ..v
        }),
{
}

/// The "new chat" button drops the conversation: after it there is no request
/// in flight, no message, no shown model list, an empty message field and the
/// transcript scrolled to the top, while the URL, key and model stay.
pub proof fn lemma_new_chat_clears_conversation(v: ChatView, x: int, y: int, now: int, wall: u64)
    requires
        v.inv(),
        218 <= y < 258,
        220 <= x < 420,
    ensures
        ({
            let w = click_next(v, x, y, now, wall);
            &&& w.job is None
            &&& w.messages.len() == 0
            &&& w.result.len() == 0
            &&& w.fields[3].len() == 0
            &&& w.scroll == 0
            &&& w.fields[0] == v.fields[0]
            &&& w.fields[1] == v.fields[1]
            &&& w.fields[2] == v.fields[2]
        }),
{
}

proof fn lemma_typed_all(f0: Seq<char>, t: Seq<char>, i: int, limit: nat, focus: nat)
    requires
        0 <= i <= t.len(),
        forall|k: int| 0 <= k < t.len() ==> accepted(#[trigger] t[k], focus),
        utf8_len(f0 + t) <= limit,
    ensures
        typed_from(f0 + t.take(i), t, i, limit, focus) == f0 + t,
    decreases t.len() - i,
{
    if i < t.len() {
        let f = f0 + t.take(i);
        let g = f0 + t.take(i + 1);
        assert(g.drop_last() =~= f);
        assert(g.last() == t[i]);
        assert(g =~= (f0 + t).take(f0.len() + i + 1));
        lemma_utf8_len_prefix(f0 + t, f0.len() + i + 1);
        assert(f.push(t[i]) =~= g);
        assert(accepted(t[i], focus));
        lemma_typed_all(f0, t, i + 1, limit, focus);
    } else {
        assert(t.take(i) =~= t);
    }
}

/// Typing text that fits goes into the focused field as it is: with no
/// request in flight and nothing selected, text whose characters the field
/// accepts and whose bytes fit in the field's limit is appended to the field
/// exactly, and the other fields stay.
pub proof fn lemma_typing_appends(v: ChatView, t: Seq<char>)
    requires
        v.inv(),
        v.job is None,
        !v.selected,
        forall|k: int| 0 <= k < t.len() ==> accepted(#[trigger] t[k], v.focus),
        utf8_len(v.fields[v.focus as int] + t) <= field_limit(v.focus),
    ensures
        edit_next(v, t).fields == v.fields.update(v.focus as int, v.fields[v.focus as int] + t),
{
    let f0 = v.fields[v.focus as int];
    assert(t.take(0) =~= Seq::<char>::empty());
    assert(f0 + t.take(0) =~= f0);
    lemma_typed_all(f0, t, 0, field_limit(v.focus), v.focus);
}

/// A finished chat request records the turn: when the reply answers with the
/// text `s`, the message that was sent and `s` are added to the conversation
/// after the earlier messages, the message field is emptied and the status says
/// so; when it answers with an error, the conversation and the message field
/// stay and the status shows the error. Either way nothing is in flight.
pub proof fn lemma_reply_records_turn(v: ChatView, status: u16, body: Seq<u8>)
    requires
        v.inv(),
        !v.models,
    ensures
        ({
            let w = reply_next(v, status, body);
            &&& w.job is None
            &&& match answer_spec(status, json_document(body), false) {
                Ok(s) => {
                    &&& w.messages.len() == v.messages.len() + 2
                    &&& w.messages.take(v.messages.len() as int) == v.messages
                    &&& w.messages[v.messages.len() as int] == ("user"@, v.fields[3])
                    &&& w.messages[v.messages.len() as int + 1] == ("assistant"@, s)
                    &&& w.fields[3].len() == 0
                    &&& w.fields[0] == v.fields[0] && w.fields[1] == v.fields[1] && w.fields[2]
                        == v.fields[2]
                    &&& w.status == "Response received."@
                },
                Err(e) => {
                    &&& w.messages == v.messages
                    &&& w.fields == v.fields
                    &&& w.status == e
                },
            }
        }),
{
    let w = reply_next(v, status, body);
    if let Ok(s) = answer_spec(status, json_document(body), false) {
        assert(w.messages.take(v.messages.len() as int) =~= v.messages);
    }
}

/// The fields hold what the window promises: the message up to 8000 bytes,
/// the model ID up to 256, the URL and the key up to 4096. Text that fits is
/// typed in whole, and no typing ever makes a field longer.
pub proof fn lemma_field_capacities(v: ChatView, t: Seq<char>)
    requires
        v.inv(),
    ensures
        ({
            let limit: nat = if v.focus == 3 {
                8000
            } else if v.focus == 2 {
                256
            } else {
                4096
            };
            &&& v.job is None && !v.selected && (forall|k: int|
                0 <= k < t.len() ==> accepted(#[trigger] t[k], v.focus)) && utf8_len(
                v.fields[v.focus as int] + t,
            ) <= limit ==> edit_next(v, t).fields[v.focus as int] == v.fields[v.focus as int] + t
            &&& utf8_len(v.fields[v.focus as int]) <= limit
        }),
{
    let limit: nat = if v.focus == 3 {
        8000
    } else if v.focus == 2 {
        256
    } else {
        4096
    };
    assert(field_limit(v.focus) == limit);
    if v.job is None && !v.selected && (forall|k: int|
        0 <= k < t.len() ==> accepted(#[trigger] t[k], v.focus)) && utf8_len(
        v.fields[v.focus as int] + t,
    ) <= limit {
        lemma_typing_appends(v, t);
    }
}

/// Keys do what the window promises: Tab moves the focus to the next field,
/// coming back after four presses; Shift+Enter in the message types a newline;
/// Backspace deletes the last character of the focused field, or the whole
/// field when it is selected; Up and Down scroll by two lines and undo each
/// other away from the ends.
pub proof fn lemma_keys(v: ChatView, now: int, wall: u64)
    requires
        v.inv(),
    ensures
        key_next(v, Key::Tab, now, wall).focus == (v.focus + 1) % 4,
        key_next(
            key_next(
                key_next(key_next(v, Key::Tab, now, wall), Key::Tab, now, wall),
                Key::Tab,
                now,
                wall,
            ),
            Key::Tab,
            now,
            wall,
        ).focus == v.focus,
        v.focus == 3 && v.job is None && !v.selected && utf8_len(v.fields[3] + seq!['\n'])
            <= 8000 ==> key_next(v, Key::Enter { shift: true }, now, wall).fields[3] == v.fields[3]
            + seq!['\n'],
        v.job is None && !v.selected && v.fields[v.focus as int].len() > 0 ==> key_next(
            v,
            Key::Backspace,
            now,
            wall,
        ).fields[v.focus as int] == v.fields[v.focus as int].drop_last(),
        v.job is None && v.selected ==> key_next(v, Key::Backspace, now, wall).fields[v.focus as int].len()
            == 0,
        key_next(v, Key::Down, now, wall).scroll == (if v.scroll + 2 <= usize::MAX {
            v.scroll + 2
        } else {
            usize::MAX as nat
        }),
        v.scroll + 2 <= usize::MAX ==> key_next(key_next(v, Key::Down, now, wall), Key::Up, now, wall).scroll
            == v.scroll,
{
    if v.focus == 3 && v.job is None && !v.selected && utf8_len(v.fields[3] + seq!['\n']) <= 8000 {
        assert(accepted('\n', 3));
        lemma_typing_appends(v, seq!['\n']);
    }
}

/// The "remove key" button erases the API key and cancels any request in flight.
pub proof fn lemma_remove_key_erases_key(v: ChatView, x: int, y: int, now: int, wall: u64)
    requires
        v.inv(),
        218 <= y < 258,
        420 <= x < 640,
    ensures
        click_next(v, x, y, now, wall).fields[1].len() == 0,
        click_next(v, x, y, now, wall).job is None,
{
}

/// A request is only started for an endpoint that `Endpoint::parse` accepts and
/// with request bytes that `request` builds.
pub proof fn lemma_started_request_is_valid(v: ChatView, models: bool, now: int, wall: u64)
    requires
        v.job is None,
        start_next(v, models, now, wall).job is Some,
    ensures
        endpoint_spec(v.fields[0]) is Ok,
        ({
            let (h, a, p, b) = endpoint_spec(v.fields[0])->Ok_0;
            let rows = if models {
                v.messages
            } else {
                v.messages.push(("user"@, v.fields[3]))
            };
            let started = start_next(v, models, now, wall).job->0;
            &&& request_spec(a, b, v.fields[1], v.fields[2], rows, models) is Ok
            &&& started.0.request == request_spec(
                a,
                b,
                v.fields[1],
                v.fields[2],
                rows,
                models,
            )->Ok_0
        }),
{
}

/// The key is never shown: two windows that differ only in the key, with keys
/// of the same length up to 50 characters, show the same key mask, fields,
/// message line, transcript and status.
pub proof fn lemma_key_never_shown(v: ChatView, key: Seq<char>, width: nat)
    requires
        v.fields.len() == 4,
        (if key.len() <= 50 { key.len() } else { 50 }) == (if v.fields[1].len() <= 50 {
            v.fields[1].len()
        } else {
            50
        }),
    ensures
        ({
            let w = ChatView { fields: v.fields.update(1, key), ..v };
            &&& key_mask_spec(w.fields[1]) == key_mask_spec(v.fields[1])
            &&& w.fields[0] == v.fields[0]
            &&& w.fields[2] == v.fields[2]
            &&& one_line(w.fields[3]) == one_line(v.fields[3])
            &&& transcript_spec(w, width) == transcript_spec(v, width)
            &&& status_shown_spec(w.status, w.width) == status_shown_spec(v.status, v.width)
        }),
{
    let w = ChatView { fields: v.fields.update(1, key), ..v };
    assert(key_mask_spec(w.fields[1]) =~= key_mask_spec(v.fields[1]));
}

/// Showing the transcript settles the scroll position: it ends within the
/// transcript, and showing it again at the same size changes nothing.
pub proof fn lemma_shown_lines_settle(v: ChatView)
    ensures
        ({
            let lines = transcript_spec(v, text_columns(v.width)).len();
            let rows = text_rows(v.height);
            let s = clamped(v.scroll, lines, rows);
            let w = ChatView { scroll: s, ..v };
            &&& s + (if rows > 0 { rows } else { 1 }) <= lines || s == 0
            &&& clamped(w.scroll, transcript_spec(w, text_columns(w.width)).len(), rows) == s
        }),
{
}

proof fn lemma_utf8_len_bound(s: Seq<char>)
    ensures
        utf8_len(s) <= 4 * s.len(),
    decreases s.len(),
{
    if s.len() > 0 {
        lemma_utf8_len_bound(s.drop_last());
    }
}

} // verus!
