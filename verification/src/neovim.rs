//! The editor bridge: the wire value tree and its codec, the bridge into the
//! host's dynamic values, the transport's protocol state, and here the
//! single-threaded client: key-symbol input encoding and per-tick message
//! dispatch.

pub mod value;
pub mod codec;
pub mod process;
pub mod msgpack;
pub mod ext_types;

use vstd::prelude::*;

use crate::neovim::value::{SpecValue, TaggedValue, spec_value_of, spec_values_of, lemma_spec_values_of};
use crate::neovim::process::{NeovimProcess, CheckOutcome, spec_response_msgid};
use crate::neovim::msgpack::{
    HostValue, SpecHost, spec_hosts_of, spec_to_host_values, rpc_array_to_vararray, rmpv_to_godot,
    spec_to_wire_values, spec_host_of,
};

verus! {

/// A key of the host's keyboard model, as far as the bridge reads it: the
/// named editing keys, the function keys, the four modifier keys, and every
/// other (character-producing) key.
#[derive(Clone, Copy)]
pub enum Key {
    Backspace,
    Tab,
    Enter,
    Escape,
    Space,
    Delete,
    Up,
    Left,
    Right,
    Down,
    PageUp,
    PageDown,
    Function(u8),
    Ctrl,
    Alt,
    Shift,
    Meta,
    Character,
}

/// One host key event: which key, the unicode character the host associates
/// with the event, and whether this is a press or a release.
#[derive(Clone, Copy)]
pub struct KeyEvent {
    pub key: Key,
    pub ch: char,
    pub pressed: bool,
}

/// Relies on `String::push`: it appends exactly the given character.
#[verifier::external_body]
fn push_char(s: &mut String, c: char)
    ensures
        final(s)@ == old(s)@.push(c),
{
    s.push(c)
}

/// The decimal digit character for one digit value.
pub open spec fn spec_digit(d: int) -> char {
    if d == 0 {
        '0'
    } else if d == 1 {
        '1'
    } else if d == 2 {
        '2'
    } else if d == 3 {
        '3'
    } else if d == 4 {
        '4'
    } else if d == 5 {
        '5'
    } else if d == 6 {
        '6'
    } else if d == 7 {
        '7'
    } else if d == 8 {
        '8'
    } else {
        '9'
    }
}

fn digit_char(d: u8) -> (r: char)
    requires
        d < 10,
    ensures
        r == spec_digit(d as int),
{
    match d {
        0 => '0',
        1 => '1',
        2 => '2',
        3 => '3',
        4 => '4',
        5 => '5',
        6 => '6',
        7 => '7',
        8 => '8',
        _ => '9',
    }
}

/// The decimal digits of a function-key number (at most two digits).
pub open spec fn spec_decimal(n: int) -> Seq<char> {
    if n < 10 {
        seq![spec_digit(n)]
    } else {
        seq![spec_digit(n / 10), spec_digit(n % 10)]
    }
}

/// The editor's key-symbol string for one key: the named keys map to their
/// bracketed symbols, a function key to `<F{n}>`, and any other key to the
/// single character the event carries.
pub open spec fn spec_symbol(key: Key, ch: char) -> Seq<char> {
    match key {
        Key::Backspace => seq!['<', 'B', 'S', '>'],
        Key::Tab => seq!['<', 'T', 'a', 'b', '>'],
        Key::Enter => seq!['<', 'C', 'R', '>'],
        Key::Escape => seq!['<', 'E', 's', 'c', '>'],
        Key::Space => seq!['<', 'S', 'p', 'a', 'c', 'e', '>'],
        Key::Delete => seq!['<', 'D', 'e', 'l', '>'],
        Key::Up => seq!['<', 'U', 'p', '>'],
        Key::Left => seq!['<', 'L', 'e', 'f', 't', '>'],
        Key::Right => seq!['<', 'R', 'i', 'g', 'h', 't', '>'],
        Key::Down => seq!['<', 'D', 'o', 'w', 'n', '>'],
        Key::PageUp => seq!['<', 'P', 'a', 'g', 'e', 'U', 'p', '>'],
        Key::PageDown => seq!['<', 'P', 'a', 'g', 'e', 'D', 'o', 'w', 'n', '>'],
        Key::Function(n) => seq!['<', 'F'] + spec_decimal(n as int) + seq!['>'],
        _ => seq![ch],
    }
}

/// Builds the editor key symbol for one key event, exactly as `spec_symbol`
/// gives it. A function key number is the ordinal distance from the first
/// function key plus one, at most 35.
pub fn keyevent_to_nvim_symbol(event: &KeyEvent) -> (r: String)
    requires
        event.key matches Key::Function(n) ==> 1 <= n <= 35,
    ensures
        r@ == spec_symbol(event.key, event.ch),
{
    let mut s = String::new();
    match event.key {
        Key::Backspace => {
            push_char(&mut s, '<');
            push_char(&mut s, 'B');
            push_char(&mut s, 'S');
            push_char(&mut s, '>');
            proof {
                assert(s@ =~= spec_symbol(event.key, event.ch));
            }
        },
        Key::Tab => {
            push_char(&mut s, '<');
            push_char(&mut s, 'T');
            push_char(&mut s, 'a');
            push_char(&mut s, 'b');
            push_char(&mut s, '>');
            proof {
                assert(s@ =~= spec_symbol(event.key, event.ch));
            }
        },
        Key::Enter => {
            push_char(&mut s, '<');
            push_char(&mut s, 'C');
            push_char(&mut s, 'R');
            push_char(&mut s, '>');
            proof {
                assert(s@ =~= spec_symbol(event.key, event.ch));
            }
        },
        Key::Escape => {
            push_char(&mut s, '<');
            push_char(&mut s, 'E');
            push_char(&mut s, 's');
            push_char(&mut s, 'c');
            push_char(&mut s, '>');
            proof {
                assert(s@ =~= spec_symbol(event.key, event.ch));
            }
        },
        Key::Space => {
            push_char(&mut s, '<');
            push_char(&mut s, 'S');
            push_char(&mut s, 'p');
            push_char(&mut s, 'a');
            push_char(&mut s, 'c');
            push_char(&mut s, 'e');
            push_char(&mut s, '>');
            proof {
                assert(s@ =~= spec_symbol(event.key, event.ch));
            }
        },
        Key::Delete => {
            push_char(&mut s, '<');
            push_char(&mut s, 'D');
            push_char(&mut s, 'e');
            push_char(&mut s, 'l');
            push_char(&mut s, '>');
            proof {
                assert(s@ =~= spec_symbol(event.key, event.ch));
            }
        },
        Key::Up => {
            push_char(&mut s, '<');
            push_char(&mut s, 'U');
            push_char(&mut s, 'p');
            push_char(&mut s, '>');
            proof {
                assert(s@ =~= spec_symbol(event.key, event.ch));
            }
        },
        Key::Left => {
            push_char(&mut s, '<');
            push_char(&mut s, 'L');
            push_char(&mut s, 'e');
            push_char(&mut s, 'f');
            push_char(&mut s, 't');
            push_char(&mut s, '>');
            proof {
                assert(s@ =~= spec_symbol(event.key, event.ch));
            }
        },
        Key::Right => {
            push_char(&mut s, '<');
            push_char(&mut s, 'R');
            push_char(&mut s, 'i');
            push_char(&mut s, 'g');
            push_char(&mut s, 'h');
            push_char(&mut s, 't');
            push_char(&mut s, '>');
            proof {
                assert(s@ =~= spec_symbol(event.key, event.ch));
            }
        },
        Key::Down => {
            push_char(&mut s, '<');
            push_char(&mut s, 'D');
            push_char(&mut s, 'o');
            push_char(&mut s, 'w');
            push_char(&mut s, 'n');
            push_char(&mut s, '>');
            proof {
                assert(s@ =~= spec_symbol(event.key, event.ch));
            }
        },
        Key::PageUp => {
            push_char(&mut s, '<');
            push_char(&mut s, 'P');
            push_char(&mut s, 'a');
            push_char(&mut s, 'g');
            push_char(&mut s, 'e');
            push_char(&mut s, 'U');
            push_char(&mut s, 'p');
            push_char(&mut s, '>');
            proof {
                assert(s@ =~= spec_symbol(event.key, event.ch));
            }
        },
        Key::PageDown => {
            push_char(&mut s, '<');
            push_char(&mut s, 'P');
            push_char(&mut s, 'a');
            push_char(&mut s, 'g');
            push_char(&mut s, 'e');
            push_char(&mut s, 'D');
            push_char(&mut s, 'o');
            push_char(&mut s, 'w');
            push_char(&mut s, 'n');
            push_char(&mut s, '>');
            proof {
                assert(s@ =~= spec_symbol(event.key, event.ch));
            }
        },
        Key::Function(n) => {
            push_char(&mut s, '<');
            push_char(&mut s, 'F');
            if n < 10 {
                push_char(&mut s, digit_char(n));
            } else {
                push_char(&mut s, digit_char(n / 10));
                push_char(&mut s, digit_char(n % 10));
            }
            push_char(&mut s, '>');
            proof {
                assert(s@ =~= spec_symbol(event.key, event.ch));
            }
        },
        _ => {
            push_char(&mut s, event.ch);
            proof {
                assert(s@ =~= spec_symbol(event.key, event.ch));
            }
        },
    }
    s
}

/// One active modifier, held down and not yet released. For the meaning of
/// the prefixes, see the editor's own key-notation help.
#[derive(Clone, Copy)]
pub enum Modifier {
    Shift,
    Ctrl,
    Alt,
    Super,
}

/// The prefix letter a modifier writes before the modified character.
pub open spec fn spec_modifier_prefix(m: Modifier) -> char {
    match m {
        Modifier::Shift => 'S',
        Modifier::Ctrl => 'C',
        Modifier::Alt => 'A',
        Modifier::Super => 'D',
    }
}

/// The symbol for a character struck while a modifier is active.
pub open spec fn spec_modified(m: Modifier, ch: char) -> Seq<char> {
    seq!['<', spec_modifier_prefix(m), '-', ch, '>']
}

/// The modifier a standalone key press activates, if any.
pub open spec fn spec_modifier_of(key: Key) -> Option<Modifier> {
    match key {
        Key::Ctrl => Some(Modifier::Ctrl),
        Key::Alt => Some(Modifier::Alt),
        Key::Shift => Some(Modifier::Shift),
        Key::Meta => Some(Modifier::Super),
        _ => None,
    }
}

impl Modifier {
    /// Wraps the given character in this modifier's bracketed form.
    pub fn modify(&self, ch: char) -> (r: String)
        ensures
            r@ == spec_modified(*self, ch),
    {
        let mut s = String::new();
        push_char(&mut s, '<');
        let p = match self {
            Modifier::Shift => 'S',
            Modifier::Ctrl => 'C',
            Modifier::Alt => 'A',
            Modifier::Super => 'D',
        };
        push_char(&mut s, p);
        push_char(&mut s, '-');
        push_char(&mut s, ch);
        push_char(&mut s, '>');
        proof {
            assert(s@ =~= spec_modified(*self, ch));
        }
        s
    }

    /// The modifier a key activates, if it is a modifier key.
    pub fn from_keycode(code: Key) -> (r: Option<Modifier>)
        ensures
            r == spec_modifier_of(code),
    {
        match code {
            Key::Ctrl => Some(Modifier::Ctrl),
            Key::Alt => Some(Modifier::Alt),
            Key::Shift => Some(Modifier::Shift),
            Key::Meta => Some(Modifier::Super),
            _ => None,
        }
    }
}


/// What one drained message becomes for the UI consumer: a notification for
/// the event sink, a response for the response sink, an editor-to-host
/// request (accepted, logged, never answered), or a dropped message (wrong
/// shape, unknown type tag, unprojectable payload, or a response to an id
/// that was never issued), carried whole so the host can log it.
pub enum Dispatch {
    Event(String, Vec<HostValue>),
    Response(u32, HostValue, HostValue),
    UnhandledRequest,
    Dropped(TaggedValue),
}

/// The mathematical form of one dispatch outcome.
pub enum SpecDispatch {
    Event(Seq<char>, Seq<SpecHost>),
    Response(int, SpecHost, SpecHost),
    UnhandledRequest,
    Dropped(SpecValue),
}

/// The denotation of one dispatch outcome.
pub open spec fn spec_dispatch_of(d: Dispatch) -> SpecDispatch {
    match d {
        Dispatch::Event(m, ps) => SpecDispatch::Event(m@, spec_hosts_of(ps@)),
        Dispatch::Response(id, e, r) => SpecDispatch::Response(
            id as int,
            spec_host_of(e),
            spec_host_of(r),
        ),
        Dispatch::UnhandledRequest => SpecDispatch::UnhandledRequest,
        Dispatch::Dropped(v) => SpecDispatch::Dropped(spec_value_of(v)),
    }
}

/// The denotations of a sequence of dispatch outcomes.
pub open spec fn spec_dispatches_of(ds: Seq<Dispatch>) -> Seq<SpecDispatch>
    decreases ds,
{
    if ds.len() == 0 {
        Seq::empty()
    } else {
        seq![spec_dispatch_of(ds[0])] + spec_dispatches_of(ds.drop_first())
    }
}

/// Appending one outcome appends its denotation.
pub proof fn lemma_dispatches_of_push(ds: Seq<Dispatch>, d: Dispatch)
    ensures
        spec_dispatches_of(ds.push(d)) == spec_dispatches_of(ds) + seq![spec_dispatch_of(d)],
    decreases ds.len(),
{
    if ds.len() == 0 {
        assert(ds.push(d).drop_first() =~= Seq::<Dispatch>::empty());
        assert(ds.push(d)[0] == d);
        reveal_with_fuel(spec_dispatches_of, 3);
        assert(spec_dispatches_of(ds.push(d)) =~= spec_dispatches_of(ds) + seq![
            spec_dispatch_of(d),
        ]);
    } else {
        assert(ds.push(d).drop_first() =~= ds.drop_first().push(d));
        lemma_dispatches_of_push(ds.drop_first(), d);
        assert(spec_dispatches_of(ds.push(d)) =~= spec_dispatches_of(ds) + seq![
            spec_dispatch_of(d),
        ]);
    }
}

/// How the dispatcher classifies one received value against the outstanding
/// set: type tag 2 is a notification (method, projected params), tag 1 a
/// response (id retired by the transport bookkeeping; a never-issued id is a
/// protocol violation and the message is dropped), tag 0 an editor request
/// that is accepted but never answered; anything else is dropped.
pub open spec fn spec_classify(pending: Set<u32>, v: SpecValue) -> SpecDispatch {
    match v {
        SpecValue::Array(items) => {
            let t: int = if items.len() >= 1 {
                match items[0] {
                    SpecValue::Int(t) => t,
                    _ => -1,
                }
            } else {
                -1
            };
            if t == 2 {
                if items.len() >= 3 {
                    match (items[1], items[2]) {
                        (SpecValue::Str(m), SpecValue::Array(ps)) => match spec_to_host_values(
                            ps,
                        ) {
                            Some(hs) => SpecDispatch::Event(m, hs),
                            None => SpecDispatch::Dropped(v),
                        },
                        _ => SpecDispatch::Dropped(v),
                    }
                } else {
                    SpecDispatch::Dropped(v)
                }
            } else if t == 1 {
                match spec_response_msgid(v) {
                    Some(id) => if 0 <= id < 0x1_0000_0000 && pending.contains(id as u32) {
                        if items.len() >= 4 {
                            match (
                                crate::neovim::msgpack::spec_to_host(items[2]),
                                crate::neovim::msgpack::spec_to_host(items[3]),
                            ) {
                                (Some(e), Some(res)) => SpecDispatch::Response(id, e, res),
                                _ => SpecDispatch::Dropped(v),
                            }
                        } else {
                            SpecDispatch::Dropped(v)
                        }
                    } else {
                        SpecDispatch::Dropped(v)
                    },
                    None => SpecDispatch::Dropped(v),
                }
            } else if t == 0 {
                SpecDispatch::UnhandledRequest
            } else {
                SpecDispatch::Dropped(v)
            }
        },
        _ => SpecDispatch::Dropped(v),
    }
}

/// The outcomes of draining a whole sequence of received values in order,
/// the outstanding set threading through the responses.
pub open spec fn spec_classify_seq(pending: Set<u32>, msgs: Seq<SpecValue>) -> Seq<SpecDispatch>
    decreases msgs.len(),
{
    if msgs.len() == 0 {
        Seq::empty()
    } else {
        seq![spec_classify(pending, msgs[0])] + spec_classify_seq(
            NeovimProcess::pending_after(pending, msgs[0]),
            msgs.drop_first(),
        )
    }
}

/// The outstanding set after draining a whole sequence of received values.
pub open spec fn spec_pending_seq(pending: Set<u32>, msgs: Seq<SpecValue>) -> Set<u32>
    decreases msgs.len(),
{
    if msgs.len() == 0 {
        pending
    } else {
        spec_pending_seq(NeovimProcess::pending_after(pending, msgs[0]), msgs.drop_first())
    }
}

/// Classifies one value that the transport bookkeeping accepted.
fn classify_value(v: TaggedValue, Ghost(pending): Ghost<Set<u32>>) -> (r: Dispatch)
    requires
        !NeovimProcess::is_violation(pending, spec_value_of(v)),
    ensures
        spec_dispatch_of(r) == spec_classify(pending, spec_value_of(v)),
{
    let done: Option<Dispatch> = match &v {
        TaggedValue::Array(items) => {
            proof {
                lemma_spec_values_of(items@);
            }
            let tag: i64 = if items.len() >= 1 {
                match &items[0] {
                    TaggedValue::Int(t) => *t,
                    TaggedValue::UInt(t) => {
                        if *t <= 0x7fff_ffff_ffff_ffffu64 {
                            *t as i64
                        } else {
                            -1
                        }
                    },
                    _ => -1,
                }
            } else {
                -1
            };
            if tag == 2 {
                if items.len() >= 3 {
                    match (&items[1], &items[2]) {
                        (TaggedValue::Str(m), TaggedValue::Array(ps)) => {
                            match rpc_array_to_vararray(ps) {
                                Some(hs) => Some(Dispatch::Event(m.clone(), hs)),
                                None => None,
                            }
                        },
                        _ => None,
                    }
                } else {
                    None
                }
            } else if tag == 1 {
                if items.len() >= 4 {
                    let id32: u32 = match &items[1] {
                        TaggedValue::Int(id) => *id as u32,
                        TaggedValue::UInt(id) => *id as u32,
                        _ => {
                            return Dispatch::Dropped(v);
                        },
                    };
                    let e = match rmpv_to_godot(&items[2]) {
                        Some(h) => h,
                        None => {
                            return Dispatch::Dropped(v);
                        },
                    };
                    let res = match rmpv_to_godot(&items[3]) {
                        Some(h) => h,
                        None => {
                            return Dispatch::Dropped(v);
                        },
                    };
                    Some(Dispatch::Response(id32, e, res))
                } else {
                    None
                }
            } else if tag == 0 {
                Some(Dispatch::UnhandledRequest)
            } else {
                None
            }
        },
        _ => None,
    };
    match done {
        Some(d) => d,
        None => Dispatch::Dropped(v),
    }
}

/// The bridge's client state: the protocol state of the owned editor
/// process, if one runs, and the at-most-one active key modifier.
pub struct NeovimClient {
    nvim_process: Option<NeovimProcess>,
    modifier: Option<Modifier>,
}

impl NeovimClient {
    /// The protocol state of the running editor process.
    pub closed spec fn proc(&self) -> Option<NeovimProcess> {
        self.nvim_process
    }

    /// The active modifier, if one is held.
    pub closed spec fn modifier_spec(&self) -> Option<Modifier> {
        self.modifier
    }

    /// Whether an editor process is attached to this client.
    pub open spec fn running(&self) -> bool {
        self.proc() is Some
    }

    /// A fresh client: no process, no active modifier.
    pub fn new() -> (r: Self)
        ensures
            !r.running(),
            r.modifier_spec() is None,
    {
        NeovimClient { nvim_process: None, modifier: None }
    }

    /// Adopts a freshly spawned process: ids start at zero, nothing is
    /// outstanding, nothing queued. The host calls this after the spawn and
    /// the worker threads succeed.
    pub fn start(&mut self)
        ensures
            final(self).running(),
            final(self).proc().unwrap().msgid_spec() == 0,
            final(self).proc().unwrap().pending() == Set::<u32>::empty(),
            final(self).proc().unwrap().queue() == Seq::<Seq<u8>>::empty(),
            final(self).modifier_spec() == old(self).modifier_spec(),
    {
        self.nvim_process = Some(NeovimProcess::new());
    }

    /// Drops the process state; `is_running` is false afterwards.
    pub fn kill_process(&mut self)
        ensures
            !final(self).running(),
            final(self).modifier_spec() == old(self).modifier_spec(),
    {
        self.nvim_process = None;
    }

    /// Whether an editor process is attached.
    pub fn is_running(&self) -> (r: bool)
        ensures
            r == self.running(),
    {
        match &self.nvim_process {
            Some(_) => true,
            None => false,
        }
    }

    /// Takes the oldest queued outgoing message, for the writer to send.
    pub fn pop_outgoing(&mut self) -> (r: Option<Vec<u8>>)
        ensures
            final(self).modifier_spec() == old(self).modifier_spec(),
            !old(self).running() ==> r is None && *final(self) == *old(self),
            old(self).running() ==> final(self).running() && {
                let pre = old(self).proc().unwrap();
                let post = final(self).proc().unwrap();
                &&& post.msgid_spec() == pre.msgid_spec()
                &&& post.pending() == pre.pending()
                &&& match r {
                    Some(bytes) => pre.queue().len() > 0 && bytes.deep_view() == pre.queue()[0]
                        && post.queue() == pre.queue().drop_first(),
                    None => pre.queue().len() == 0 && post.queue() == pre.queue(),
                }
            },
    {
        match &mut self.nvim_process {
            Some(np) => np.pop_outgoing(),
            None => None,
        }
    }
}


/// The UTF-8 encoding of a character sequence takes at most four bytes per
/// character.
pub proof fn lemma_encode_utf8_len(s: Seq<char>)
    ensures
        vstd::utf8::encode_utf8(s).len() <= 4 * s.len(),
    decreases s.len(),
{
    if s.len() > 0 {
        lemma_encode_utf8_len(s.drop_first());
        assert(vstd::utf8::encode_scalar(s[0] as u32).len() <= 4);
    }
}

/// The symbol sent while a modifier is active: the modifier wraps the
/// event's character; with none active the key maps through `spec_symbol`.
pub open spec fn spec_input_symbol(m: Option<Modifier>, key: Key, ch: char) -> Seq<char> {
    match m {
        Some(mo) => spec_modified(mo, ch),
        None => spec_symbol(key, ch),
    }
}

impl NeovimClient {
    /// Issues one request to the running editor: projects the host
    /// parameters onto the wire, encodes `[0, msgid, method, params]`,
    /// queues it, and returns the id assigned; with no process running,
    /// nothing happens and the result is -1.
    pub fn request(&mut self, method: &str, params: Vec<HostValue>) -> (r: i32)
        requires
            old(self).running() ==> old(self).proc().unwrap().msgid_spec() <= 0x7fff_ffff
                && crate::neovim::process::spec_request_msg(
                old(self).proc().unwrap().msgid_spec(),
                method@,
                spec_to_wire_values(spec_hosts_of(params@)),
            ).wf(),
        ensures
            final(self).modifier_spec() == old(self).modifier_spec(),
            !old(self).running() ==> r == -1 && *final(self) == *old(self),
            old(self).running() ==> final(self).running() && r == old(
                self,
            ).proc().unwrap().msgid_spec() as i32 && NeovimProcess::request_transition(
                old(self).proc().unwrap(),
                final(self).proc().unwrap(),
                method@,
                spec_to_wire_values(spec_hosts_of(params@)),
                r as u32,
            ),
    {
        match &mut self.nvim_process {
            Some(np) => np.var_request(method, &params),
            None => -1,
        }
    }

    /// Emits the attachment notification `nvim_ui_attach` with the initial
    /// grid size and the line-grid option set; returns whether a process was
    /// running to receive it.
    pub fn attach(&mut self, width: i64, height: i64) -> (r: bool)
        requires
            width >= 1,
            height >= 1,
        ensures
            final(self).modifier_spec() == old(self).modifier_spec(),
            r == old(self).running(),
            !old(self).running() ==> *final(self) == *old(self),
            old(self).running() ==> final(self).running()
                && NeovimProcess::notify_transition(
                old(self).proc().unwrap(),
                final(self).proc().unwrap(),
                "nvim_ui_attach"@,
                seq![
                    SpecValue::Int(width as int),
                    SpecValue::Int(height as int),
                    SpecValue::Dict(seq![(SpecValue::Str("ext_linegrid"@), SpecValue::Bool(true))]),
                ],
            ),
    {
        match &mut self.nvim_process {
            Some(np) => {
                let mut opts: Vec<(TaggedValue, TaggedValue)> = Vec::new();
                opts.push(
                    (
                        TaggedValue::Str(<String as vstd::string::StringExecFns>::from_str("ext_linegrid")),
                        TaggedValue::Bool(true),
                    ),
                );
                let mut items: Vec<TaggedValue> = Vec::new();
                items.push(TaggedValue::Int(width));
                items.push(TaggedValue::Int(height));
                items.push(TaggedValue::Dict(opts));
                proof {
                    crate::neovim::value::lemma_spec_pairs_of(opts@);
                    assert(crate::neovim::value::spec_pairs_of(opts@) =~= seq![
                        (SpecValue::Str("ext_linegrid"@), SpecValue::Bool(true)),
                    ]);
                    lemma_spec_values_of(items@);
                    assert(spec_values_of(items@) =~= seq![
                        SpecValue::Int(width as int),
                        SpecValue::Int(height as int),
                        SpecValue::Dict(
                            seq![(SpecValue::Str("ext_linegrid"@), SpecValue::Bool(true))],
                        ),
                    ]);
                    reveal_strlit("ext_linegrid");
                    reveal_strlit("nvim_ui_attach");
                    lemma_encode_utf8_len("ext_linegrid"@);
                    lemma_encode_utf8_len("nvim_ui_attach"@);
                    let inner = seq![(SpecValue::Str("ext_linegrid"@), SpecValue::Bool(true))];
                    crate::neovim::value::lemma_wf_pairs_1(
                        SpecValue::Str("ext_linegrid"@),
                        SpecValue::Bool(true),
                    );
                    assert(SpecValue::Dict(inner).wf());
                    crate::neovim::value::lemma_wf_values_3(
                        SpecValue::Int(width as int),
                        SpecValue::Int(height as int),
                        SpecValue::Dict(inner),
                    );
                    assert(SpecValue::Array(spec_values_of(items@)).wf());
                    crate::neovim::value::lemma_wf_values_3(
                        SpecValue::Int(2),
                        SpecValue::Str("nvim_ui_attach"@),
                        SpecValue::Array(spec_values_of(items@)),
                    );
                    assert(crate::neovim::process::spec_notify_msg(
                        "nvim_ui_attach"@,
                        spec_values_of(items@),
                    ).wf());
                }
                np.notify("nvim_ui_attach", items);
                true
            },
            None => false,
        }
    }

    /// Drains one tick's worth of received values, in arrival order: each is
    /// checked against the outstanding set and classified; the outcomes come
    /// back in the same order for the host to hand to its sinks.
    pub fn process(&mut self, incoming: Vec<TaggedValue>) -> (r: Vec<Dispatch>)
        ensures
            final(self).modifier_spec() == old(self).modifier_spec(),
            !old(self).running() ==> *final(self) == *old(self) && r@.len() == 0,
            old(self).running() ==> final(self).running() && {
                let pre = old(self).proc().unwrap();
                let post = final(self).proc().unwrap();
                &&& post.msgid_spec() == pre.msgid_spec()
                &&& post.queue() == pre.queue()
                &&& post.pending() == spec_pending_seq(pre.pending(), spec_values_of(incoming@))
                &&& spec_dispatches_of(r@) == spec_classify_seq(
                    pre.pending(),
                    spec_values_of(incoming@),
                )
            },
    {
        let mut out: Vec<Dispatch> = Vec::new();
        match &mut self.nvim_process {
            None => out,
            Some(np) => {
                proof {
                    lemma_spec_values_of(incoming@);
                }
                let ghost orig = spec_values_of(incoming@);
                let ghost p0 = np.pending();
                let n0 = incoming.len();
                let mut rest = incoming;
                let mut i: usize = 0;
                proof {
                    assert(orig.skip(0) =~= orig);
                    assert(spec_dispatches_of(out@) =~= Seq::<SpecDispatch>::empty());
                }
                while rest.len() > 0
                    invariant
                        i + rest@.len() == orig.len(),
                        orig.len() == n0,
                        orig == spec_values_of(incoming@),
                        orig.len() == incoming@.len(),
                        forall|j: int| 0 <= j < rest@.len() ==> spec_value_of(
                            #[trigger] rest@[j],
                        ) == orig[i + j],
                        np.msgid_spec() == old(self).proc().unwrap().msgid_spec(),
                        np.queue() == old(self).proc().unwrap().queue(),
                        out@.len() == i,
                        spec_classify_seq(p0, orig) == spec_dispatches_of(out@)
                            + spec_classify_seq(np.pending(), orig.skip(i as int)),
                        spec_pending_seq(p0, orig) == spec_pending_seq(
                            np.pending(),
                            orig.skip(i as int),
                        ),
                    decreases rest@.len(),
                {
                    let v = rest.remove(0);
                    let ghost pending_before = np.pending();
                    let outcome = np.check(v);
                    let d = match outcome {
                        CheckOutcome::Accepted(w) => classify_value(w, Ghost(pending_before)),
                        CheckOutcome::Violation(w) => Dispatch::Dropped(w),
                    };
                    proof {
                        assert(orig.skip(i as int)[0] == orig[i as int]);
                        assert(orig.skip(i as int).drop_first() =~= orig.skip(i as int + 1));
                        assert(spec_dispatch_of(d) == spec_classify(pending_before, orig[i as int]));
                        lemma_dispatches_of_push(out@, d);
                        assert(spec_dispatches_of(out@) + (seq![spec_dispatch_of(d)]
                            + spec_classify_seq(np.pending(), orig.skip(i as int + 1))) =~= (
                        spec_dispatches_of(out@) + seq![spec_dispatch_of(d)]) + spec_classify_seq(
                            np.pending(),
                            orig.skip(i as int + 1),
                        ));
                    }
                    out.push(d);
                    i = i + 1;
                }
                proof {
                    assert(orig.skip(orig.len() as int) =~= Seq::<SpecValue>::empty());
                    assert(spec_dispatches_of(out@) + Seq::<SpecDispatch>::empty()
                        =~= spec_dispatches_of(out@));
                }
                out
            },
        }
    }

    /// The input state machine: a modifier key press arms the modifier and
    /// its release clears it; any other key press, while a process runs,
    /// sends the `nvim_input` notification-method request carrying the key's
    /// symbol, wrapped by the active modifier if one is armed. Key releases
    /// of ordinary keys, and all input while no process runs, do nothing.
    pub fn unhandled_key_input(&mut self, event: KeyEvent) -> (r: i32)
        requires
            event.key matches Key::Function(n) ==> 1 <= n <= 35,
            old(self).running() ==> old(self).proc().unwrap().msgid_spec() <= 0x7fff_ffff,
        ensures
            !old(self).running() ==> *final(self) == *old(self) && r == -1,
            old(self).running() ==> final(self).running() && {
                let pre = old(self).proc().unwrap();
                let post = final(self).proc().unwrap();
                match spec_modifier_of(event.key) {
                    Some(m) => {
                        &&& post == pre
                        &&& r == -1
                        &&& final(self).modifier_spec() == (match old(self).modifier_spec() {
                            Some(_) => Option::<Modifier>::None,
                            None => if event.pressed {
                                Some(m)
                            } else {
                                None
                            },
                        })
                    },
                    None => {
                        &&& final(self).modifier_spec() == old(self).modifier_spec()
                        &&& if event.pressed {
                            &&& r == pre.msgid_spec() as i32
                            &&& NeovimProcess::request_transition(
                                pre,
                                post,
                                "nvim_input"@,
                                seq![
                                    SpecValue::Str(
                                        spec_input_symbol(
                                            old(self).modifier_spec(),
                                            event.key,
                                            event.ch,
                                        ),
                                    ),
                                ],
                                r as u32,
                            )
                        } else {
                            post == pre && r == -1
                        }
                    },
                }
            },
    {
        if !self.is_running() {
            return -1;
        }
        match Modifier::from_keycode(event.key) {
            Some(m) => {
                self.modifier = match self.modifier {
                    Some(_) => None,
                    None => if event.pressed {
                        Some(m)
                    } else {
                        None
                    },
                };
                -1
            },
            None => {
                if !event.pressed {
                    return -1;
                }
                let input = match &self.modifier {
                    Some(m) => m.modify(event.ch),
                    None => keyevent_to_nvim_symbol(&event),
                };
                proof {
                    reveal_strlit("nvim_input");
                    lemma_encode_utf8_len("nvim_input"@);
                    lemma_encode_utf8_len(input@);
                }
                let mut params: Vec<TaggedValue> = Vec::new();
                params.push(TaggedValue::Str(input));
                match &mut self.nvim_process {
                    Some(np) => {
                        proof {
                            lemma_spec_values_of(params@);
                            assert(spec_values_of(params@) =~= seq![
                                SpecValue::Str(
                                    spec_input_symbol(
                                        old(self).modifier_spec(),
                                        event.key,
                                        event.ch,
                                    ),
                                ),
                            ]);
                            let sym = spec_input_symbol(
                                old(self).modifier_spec(),
                                event.key,
                                event.ch,
                            );
                            crate::neovim::value::lemma_wf_values_1(SpecValue::Str(sym));
                            assert(SpecValue::Array(spec_values_of(params@)).wf());
                            crate::neovim::value::lemma_wf_values_4(
                                SpecValue::Int(0),
                                SpecValue::Int(np.msgid_spec() as int),
                                SpecValue::Str("nvim_input"@),
                                SpecValue::Array(spec_values_of(params@)),
                            );
                            assert(crate::neovim::process::spec_request_msg(
                                np.msgid_spec(),
                                "nvim_input"@,
                                spec_values_of(params@),
                            ).wf());
                        }
                        let id = np.request("nvim_input", params);
                        id as i32
                    },
                    None => -1,
                }
            },
        }
    }
}

/// Every request id a sequence of received values answers (the ids of its
/// response-shaped elements that fit the id space).
pub open spec fn spec_response_ids(msgs: Seq<SpecValue>) -> Set<u32>
    decreases msgs.len(),
{
    if msgs.len() == 0 {
        Set::empty()
    } else {
        let rest = spec_response_ids(msgs.drop_first());
        match spec_response_msgid(msgs[0]) {
            Some(id) => if 0 <= id < 0x1_0000_0000 {
                rest.insert(id as u32)
            } else {
                rest
            },
            None => rest,
        }
    }
}

/// Draining a sequence of values removes from the outstanding set exactly
/// the ids the sequence answers.
pub proof fn lemma_pending_seq_difference(pending: Set<u32>, msgs: Seq<SpecValue>)
    ensures
        spec_pending_seq(pending, msgs) == pending.difference(spec_response_ids(msgs)),
    decreases msgs.len(),
{
    if msgs.len() == 0 {
        assert(pending.difference(spec_response_ids(msgs)) =~= pending);
    } else {
        let p1 = NeovimProcess::pending_after(pending, msgs[0]);
        lemma_pending_seq_difference(p1, msgs.drop_first());
        assert(p1.difference(spec_response_ids(msgs.drop_first())) =~= pending.difference(
            spec_response_ids(msgs),
        ));
    }
}

/// Outstanding-set closure: after draining a well-formed response sequence
/// that answers every outstanding request, the outstanding set is empty.
pub proof fn lemma_outstanding_closure(pending: Set<u32>, msgs: Seq<SpecValue>)
    requires
        forall|id: u32| pending.contains(id) ==> spec_response_ids(msgs).contains(id),
    ensures
        spec_pending_seq(pending, msgs) == Set::<u32>::empty(),
{
    lemma_pending_seq_difference(pending, msgs);
    assert(pending.difference(spec_response_ids(msgs)) =~= Set::<u32>::empty());
}

/// Unknown-tag tolerance: a message whose type tag is none of the three
/// protocol tags is dropped whole, touches no outstanding request, and every
/// later message dispatches exactly as it would have without it.
pub proof fn lemma_unknown_tag_tolerance(
    pending: Set<u32>,
    v: SpecValue,
    items: Seq<SpecValue>,
    t: int,
    rest: Seq<SpecValue>,
)
    requires
        v == SpecValue::Array(items),
        items.len() >= 1,
        items[0] == SpecValue::Int(t),
        t != 0 && t != 1 && t != 2,
    ensures
        spec_classify(pending, v) == SpecDispatch::Dropped(v),
        spec_pending_seq(pending, seq![v] + rest) == spec_pending_seq(pending, rest),
        spec_classify_seq(pending, seq![v] + rest) == seq![SpecDispatch::Dropped(v)]
            + spec_classify_seq(pending, rest),
{
    assert((seq![v] + rest)[0] == v);
    assert((seq![v] + rest).drop_first() =~= rest);
}

} // verus!


