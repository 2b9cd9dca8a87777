use vstd::prelude::*;
use vstd::string::StringSliceAdditionalSpecFns;
use vstd::utf8::{decode_utf8, encode_utf8_decode_utf8, is_char_boundary};

verus! {

/// Severity of an event shown in the event log.
#[derive(Clone, Copy, Debug, PartialEq, Eq, Structural)]
pub enum EventLevel {
    Info,
    Debug,
    Error,
}

/// How many messages a message view shows.
#[derive(Clone, Copy, Debug, PartialEq, Eq, Structural)]
pub enum MessageCountToDisplay {
    Nothing,
    All,
    Last(usize),
}

/// The two ways of showing a conversation.
#[derive(Clone, Copy, Debug, PartialEq, Eq, Structural)]
pub enum MessageViewType {
    MessageGraph,
    MessageList,
}

impl MessageViewType {
    /// Tab label of the view.
    pub fn name(&self) -> (r: &'static str)
        ensures
            *self == MessageViewType::MessageGraph ==> r == "📈 Graph",
            *self == MessageViewType::MessageList ==> r == "💬 List ",
    {
        match self {
            MessageViewType::MessageGraph => "📈 Graph",
            MessageViewType::MessageList => "💬 List ",
        }
    }
}

/// The top-level views of the application.
#[derive(Clone, Copy, Debug, PartialEq, Eq, Structural)]
pub enum ViewType {
    MessageGraph,
    MessageList,
    Network,
}

impl ViewType {
    /// Tab label of the view.
    pub fn name(&self) -> (r: &'static str)
        ensures
            *self == ViewType::MessageGraph ==> r == "📈 Graph",
            *self == ViewType::MessageList ==> r == "💬 List ",
            *self == ViewType::Network ==> r == "🖧 Network",
    {
        match self {
            ViewType::MessageGraph => "📈 Graph",
            ViewType::MessageList => "💬 List ",
            ViewType::Network => "🖧 Network",
        }
    }
}

/// Position (1 to 24) of the clock face for a time of day among the
/// Unicode clock faces that follow U+1F54F: the twelve full hours, then the
/// twelve half hours. Minutes from 45 on round up to the next hour; minutes
/// from 15 to 44 show the half hour.
pub open spec fn clock_face_index(hours: u32, mins: u32) -> int {
    let h: int = if mins >= 45 { (hours % 12) as int + 1 } else { (hours % 12) as int };
    let h: int = if h == 0 { 12 } else { h };
    if 15 <= mins < 45 { h + 12 } else { h }
}

/// The Unicode scalar value `v` is a valid `char`.
pub open spec fn is_scalar(v: u32) -> bool {
    v <= 0xD7FF || (0xE000 <= v <= 0x10FFFF)
}

/// Relies on char::from_u32: `Some` of the character with that code exactly
/// when the code is a Unicode scalar value.
#[verifier::external_body]
fn char_from_code(v: u32) -> (r: Option<char>)
    ensures
        r is Some <==> is_scalar(v),
        r is Some ==> r.unwrap() as u32 == v,
{
    char::from_u32(v)
}

/// The clock-face character for a time of day.
pub fn clock(hours: u32, mins: u32) -> (r: char)
    ensures
        r as u32 == 0x1F54F + clock_face_index(hours, mins),
{
    let mut idx: u32 = hours % 12;
    if mins >= 45 {
        idx += 1;
    }
    if idx == 0 {
        idx = 12;
    }
    if mins >= 15 && mins < 45 {
        idx += 12;
    }
    match char_from_code(0x1F54F + idx) {
        Some(c) => c,
        None => '?',
    }
}

/// The first eight bytes of an identifier, or all of it when it is shorter.
pub fn safe_id_display(id: &str) -> (r: &str)
    requires
        id.spec_bytes().len() >= 8 ==> is_char_boundary(id.spec_bytes(), 8),
    ensures
        r.spec_bytes() == if id.spec_bytes().len() >= 8 {
            id.spec_bytes().subrange(0, 8)
        } else {
            id.spec_bytes()
        },
{
    if id.as_bytes().len() >= 8 {
        let (head, _tail) = id.split_at(8);
        assert(head.spec_bytes() =~= id.spec_bytes().subrange(0, 8));
        head
    } else {
        id
    }
}

/// State of the header bar: the minute last drawn and the clock text.
pub struct Header {
    minutes: u32,
    clock: String,
}

impl Header {
    pub closed spec fn spec_minutes(&self) -> u32 {
        self.minutes
    }

    pub closed spec fn spec_clock(&self) -> Seq<char> {
        self.clock@
    }

    /// A header that has drawn nothing yet: the minute is out of range, so
    /// the first draw refreshes the clock.
    pub fn new() -> (r: Self)
        ensures
            r.spec_minutes() == 100,
            r.spec_clock() == Seq::<char>::empty(),
    {
        Header { minutes: 100, clock: String::new() }
    }

    pub fn minutes(&self) -> (r: u32)
        ensures
            r == self.spec_minutes(),
    {
        self.minutes
    }
}

/// The settings view; it holds no state.
pub struct SettingsView;

impl SettingsView {
    pub fn new() -> (r: Self) {
        SettingsView
    }
}

/// Display options of the message graph.
#[derive(Clone, Copy, Debug, PartialEq, Eq, Structural)]
pub struct MessageGraphView {
    pub auto_bounds: bool,
    pub show_current_time: bool,
    pub hovered: bool,
}

impl MessageGraphView {
    /// Bounds follow the data, the current time is marked, nothing hovered.
    pub fn new() -> (r: Self)
        ensures
            r.auto_bounds,
            r.show_current_time,
            !r.hovered,
    {
        MessageGraphView { auto_bounds: true, show_current_time: true, hovered: false }
    }

    /// A label of at most `max_length` bytes where it can be had: the text
    /// itself when it fits, else its first `max_length - 3` bytes (none, for
    /// a limit under 3) followed by "...".
    pub fn truncate_text(&self, text: &str, max_length: usize) -> (r: String)
        requires
            text.spec_bytes().len() > max_length ==> is_char_boundary(
                text.spec_bytes(),
                kept_bytes(max_length),
            ),
        ensures
            r@ == if text.spec_bytes().len() <= max_length {
                text@
            } else {
                decode_utf8(text.spec_bytes().subrange(0, kept_bytes(max_length))) + seq![
                    '.',
                    '.',
                    '.',
                ]
            },
    {
        if text.as_bytes().len() <= max_length {
            return text.to_owned();
        }
        let keep: usize = if max_length >= 3 {
            max_length - 3
        } else {
            0
        };
        let (head, _tail) = text.split_at(keep);
        let mut r = head.to_owned();
        proof {
            encode_utf8_decode_utf8(head@);
            assert(head.spec_bytes() =~= text.spec_bytes().subrange(0, keep as int));
            reveal_strlit("...");
        }
        append_str(&mut r, "...");
        r
    }
}

/// Bytes of a text kept in front of "..." when it is cut to `max_length`.
pub open spec fn kept_bytes(max_length: usize) -> int {
    if max_length >= 3 {
        max_length - 3
    } else {
        0
    }
}

/// Relies on String::push_str: appends `t` to the end of `s`.
#[verifier::external_body]
fn append_str(s: &mut String, t: &str)
    ensures
        final(s)@ == old(s)@ + t@,
{
    s.push_str(t)
}

} // verus!
