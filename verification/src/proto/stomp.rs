use crate::buffer::{
    buffer_as_slice, buffer_bytes, buffer_extend, buffer_is_empty, buffer_len, buffer_reserve,
    buffer_split_to,
};
use crate::text::{
    lemma_split_on_absent, lemma_split_on_concat, lemma_split_on_leading_sep, lemma_split_on_len,
    lemma_split_on_two_iff, split_on, split_text, str_eq, utf8_text, views};
use bytes::BytesMut;
use vstd::prelude::*;
use vstd::utf8::{decode_utf8, valid_utf8};

verus! {

/// The command of a STOMP frame.
#[derive(Debug, Clone, Copy, PartialEq, Eq, Structural)]
pub enum Frame {
    /// Sends a message to the destination.
    Send,
    /// Registers to a given destination.
    Subscribe,
    /// Unregisters from a given destination.
    Unsubscribe,
    /// Starts a transaction.
    Begin,
    /// Commits a transaction.
    Commit,
    /// Rolls back a transaction.
    Abort,
    /// Acknowledges the consumption of a message from a subscription.
    Ack,
    /// Tells the server that the message has not been consumed yet.
    Nack,
    /// Disconnects from the server.
    Disconnect,
    /// Conveys messages from subscriptions to clients.
    Message,
    /// Acknowledges that a client frame was processed.
    Receipt,
    /// Lets clients know of an error.
    Error,
    /// An invalid frame.
    Invalid,
}

/// The name under which a command is written.
pub open spec fn frame_name(f: Frame) -> Seq<char> {
    match f {
        Frame::Send => "SEND"@,
        Frame::Subscribe => "SUBSCRIBE"@,
        Frame::Unsubscribe => "UNSUBSCRIBE"@,
        Frame::Begin => "BEGIN"@,
        Frame::Commit => "COMMIT"@,
        Frame::Abort => "ABORT"@,
        Frame::Ack => "ACK"@,
        Frame::Nack => "NACK"@,
        Frame::Disconnect => "DISCONNECT"@,
        Frame::Message => "MESSAGE"@,
        Frame::Receipt => "RECEIPT"@,
        Frame::Error => "ERROR"@,
        Frame::Invalid => "INVALID"@,
    }
}

/// The command that a command line names: one of the nine commands a client
/// sends, and `Invalid` for anything else.
pub open spec fn command_frame(cmd: Seq<char>) -> Frame {
    if cmd == "SEND"@ {
        Frame::Send
    } else if cmd == "SUBSCRIBE"@ {
        Frame::Subscribe
    } else if cmd == "UNSUBSCRIBE"@ {
        Frame::Unsubscribe
    } else if cmd == "BEGIN"@ {
        Frame::Begin
    } else if cmd == "COMMIT"@ {
        Frame::Commit
    } else if cmd == "ABORT"@ {
        Frame::Abort
    } else if cmd == "ACK"@ {
        Frame::Ack
    } else if cmd == "NACK"@ {
        Frame::Nack
    } else if cmd == "DISCONNECT"@ {
        Frame::Disconnect
    } else {
        Frame::Invalid
    }
}

impl Frame {
    /// The name under which this command is written.
    pub fn name(&self) -> (s: &'static str)
        ensures
            s@ == frame_name(*self),
    {
        match self {
            Frame::Send => "SEND",
            Frame::Subscribe => "SUBSCRIBE",
            Frame::Unsubscribe => "UNSUBSCRIBE",
            Frame::Begin => "BEGIN",
            Frame::Commit => "COMMIT",
            Frame::Abort => "ABORT",
            Frame::Ack => "ACK",
            Frame::Nack => "NACK",
            Frame::Disconnect => "DISCONNECT",
            Frame::Message => "MESSAGE",
            Frame::Receipt => "RECEIPT",
            Frame::Error => "ERROR",
            Frame::Invalid => "INVALID",
        }
    }

    /// The name of this command, as its text form.
    pub fn to_string(&self) -> (s: String)
        ensures
            s@ == frame_name(*self),
    {
        self.name().to_owned()
    }

    /// The command that a command line names.
    pub fn from_command(cmd: &str) -> (f: Frame)
        ensures
            f == command_frame(cmd@),
    {
        if str_eq(cmd, "SEND") {
            Frame::Send
        } else if str_eq(cmd, "SUBSCRIBE") {
            Frame::Subscribe
        } else if str_eq(cmd, "UNSUBSCRIBE") {
            Frame::Unsubscribe
        } else if str_eq(cmd, "BEGIN") {
            Frame::Begin
        } else if str_eq(cmd, "COMMIT") {
            Frame::Commit
        } else if str_eq(cmd, "ABORT") {
            Frame::Abort
        } else if str_eq(cmd, "ACK") {
            Frame::Ack
        } else if str_eq(cmd, "NACK") {
            Frame::Nack
        } else if str_eq(cmd, "DISCONNECT") {
            Frame::Disconnect
        } else {
            Frame::Invalid
        }
    }
}

/// A line that the parser keeps: neither empty nor a lone NUL.
pub open spec fn is_kept_line(l: Seq<char>) -> bool {
    l.len() != 0 && l != "\0"@
}

/// The lines that the parser keeps, in order.
pub open spec fn kept_lines(ls: Seq<Seq<char>>) -> Seq<Seq<char>>
    decreases ls.len(),
{
    if ls.len() == 0 {
        Seq::<Seq<char>>::empty()
    } else if is_kept_line(ls.last()) {
        kept_lines(ls.drop_last()).push(ls.last())
    } else {
        kept_lines(ls.drop_last())
    }
}

/// The lines of a frame's text that the parser reads: the first is the
/// command, the others are headers.
pub open spec fn frame_lines(text: Seq<char>) -> Seq<Seq<char>> {
    kept_lines(split_on(text, '\n'))
}

/// The name and value that a header line gives: the text before its first
/// `:` and the text between its first and second `:` (or to its end).
pub open spec fn header_entry(line: Seq<char>) -> (Seq<char>, Seq<char>) {
    (split_on(line, ':')[0], split_on(line, ':')[1])
}

/// A header line has a name and a value: it holds a `:`.
pub open spec fn is_header_line(line: Seq<char>) -> bool {
    split_on(line, ':').len() >= 2
}

/// The headers that a list of header lines gives; a later line with the same
/// name replaces the value of an earlier one.
pub open spec fn headers_of(lines: Seq<Seq<char>>) -> Map<Seq<char>, Seq<char>>
    decreases lines.len(),
{
    if lines.len() == 0 {
        Map::empty()
    } else {
        headers_of(lines.drop_last()).insert(
            header_entry(lines.last()).0,
            header_entry(lines.last()).1,
        )
    }
}

/// The texts that the parser accepts: at least one kept line, and a `:` in
/// each kept line after the first.
pub open spec fn parseable(text: Seq<char>) -> bool {
    &&& frame_lines(text).len() >= 1
    &&& forall|i: int| 1 <= i < frame_lines(text).len() ==> is_header_line(#[trigger] frame_lines(text)[i])
}

/// The command of a parsed text.
pub open spec fn parsed_kind(text: Seq<char>) -> Frame {
    command_frame(frame_lines(text)[0])
}

/// The headers of a parsed text.
pub open spec fn parsed_headers(text: Seq<char>) -> Map<Seq<char>, Seq<char>> {
    headers_of(frame_lines(text).skip(1))
}

/// The map that a list of (name, value) entries describes, a later entry
/// winning over an earlier one.
pub open spec fn entry_map(es: Seq<(Seq<char>, Seq<char>)>) -> Map<Seq<char>, Seq<char>>
    decreases es.len(),
{
    if es.len() == 0 {
        Map::empty()
    } else {
        entry_map(es.drop_last()).insert(es.last().0, es.last().1)
    }
}

/// No two entries have the same name.
pub open spec fn distinct_names(es: Seq<(Seq<char>, Seq<char>)>) -> bool {
    forall|i: int, j: int| 0 <= i < j < es.len() ==> #[trigger] es[i].0 != #[trigger] es[j].0
}

/// The characters of each (name, value) pair.
pub open spec fn entry_views(hs: Seq<(String, String)>) -> Seq<(Seq<char>, Seq<char>)> {
    hs.map_values(|p: (String, String)| (p.0@, p.1@))
}

/// A name is in the map exactly when some entry carries it.
pub proof fn lemma_entry_map_dom(es: Seq<(Seq<char>, Seq<char>)>, k: Seq<char>)
    ensures
        entry_map(es).dom().contains(k) <==> exists|i: int| 0 <= i < es.len() && #[trigger] es[i].0 == k,
    decreases es.len(),
{
    if es.len() > 0 {
        lemma_entry_map_dom(es.drop_last(), k);
        if entry_map(es.drop_last()).dom().contains(k) {
            let i = choose|i: int| 0 <= i < es.drop_last().len() && #[trigger] es.drop_last()[i].0 == k;
            assert(es[i].0 == k);
        }
        if exists|i: int| 0 <= i < es.len() && #[trigger] es[i].0 == k {
            let i = choose|i: int| 0 <= i < es.len() && #[trigger] es[i].0 == k;
            if i < es.len() - 1 {
                assert(es.drop_last()[i].0 == k);
            }
        }
    }
}

/// With distinct names, the map gives each entry's value for its name.
pub proof fn lemma_entry_map_value(es: Seq<(Seq<char>, Seq<char>)>, i: int)
    requires
        distinct_names(es),
        0 <= i < es.len(),
    ensures
        entry_map(es).dom().contains(es[i].0),
        entry_map(es)[es[i].0] == es[i].1,
    decreases es.len(),
{
    if i < es.len() - 1 {
        let d = es.drop_last();
        assert(d[i] == es[i]);
        assert forall|a: int, b: int| 0 <= a < b < d.len() implies #[trigger] d[a].0 != #[trigger] d[b].0 by {
            assert(d[a] == es[a] && d[b] == es[b]);
        }
        lemma_entry_map_value(d, i);
        assert(es[i].0 != es[es.len() - 1].0);
    }
}

/// Replacing the value of the entry for a name, in a list with distinct names,
/// sets that name in the map.
pub proof fn lemma_entry_map_update(es: Seq<(Seq<char>, Seq<char>)>, i: int, v: Seq<char>)
    requires
        distinct_names(es),
        0 <= i < es.len(),
    ensures
        distinct_names(es.update(i, (es[i].0, v))),
        entry_map(es.update(i, (es[i].0, v))) == entry_map(es).insert(es[i].0, v),
{
    let k = es[i].0;
    let u = es.update(i, (k, v));
    assert forall|a: int, b: int| 0 <= a < b < u.len() implies #[trigger] u[a].0 != #[trigger] u[b].0 by {
        assert(u[a].0 == es[a].0 && u[b].0 == es[b].0);
    }
    let m1 = entry_map(u);
    let m2 = entry_map(es).insert(k, v);
    assert forall|key: Seq<char>| m1.dom().contains(key) <==> m2.dom().contains(key) by {
        lemma_entry_map_dom(u, key);
        lemma_entry_map_dom(es, key);
        if exists|j: int| 0 <= j < u.len() && #[trigger] u[j].0 == key {
            let j = choose|j: int| 0 <= j < u.len() && #[trigger] u[j].0 == key;
            assert(es[j].0 == key);
        }
        if exists|j: int| 0 <= j < es.len() && #[trigger] es[j].0 == key {
            let j = choose|j: int| 0 <= j < es.len() && #[trigger] es[j].0 == key;
            assert(u[j].0 == key);
        }
    }
    assert forall|key: Seq<char>| m1.dom().contains(key) implies m1[key] == m2[key] by {
        lemma_entry_map_dom(u, key);
        let j = choose|j: int| 0 <= j < u.len() && #[trigger] u[j].0 == key;
        lemma_entry_map_value(u, j);
        if j != i {
            assert(es[j] == u[j]);
            lemma_entry_map_value(es, j);
        }
    }
    assert(m1 =~= m2);
}

/// A parsed STOMP frame: its command and its headers.
#[derive(Debug, Clone)]
pub struct STOMPFrame {
    /// The command.
    pub kind: Frame,
    /// The headers as (name, value) pairs, each name once, in the order in
    /// which their names first came.
    pub headers: Vec<(String, String)>,
}

impl STOMPFrame {
    /// The headers as (name, value) character sequences.
    pub open spec fn entries(&self) -> Seq<(Seq<char>, Seq<char>)> {
        entry_views(self.headers@)
    }

    /// The headers as a map from name to value.
    pub open spec fn header_map(&self) -> Map<Seq<char>, Seq<char>> {
        entry_map(self.entries())
    }

    /// Each header name occurs once.
    pub open spec fn wf(&self) -> bool {
        distinct_names(self.entries())
    }

    /// An invalid frame without headers.
    pub fn new() -> (f: STOMPFrame)
        ensures
            f.wf(),
            f.kind == Frame::Invalid,
            f.entries() == Seq::<(Seq<char>, Seq<char>)>::empty(),
            f.header_map() == Map::<Seq<char>, Seq<char>>::empty(),
    {
        let f = STOMPFrame { kind: Frame::Invalid, headers: Vec::new() };
        assert(f.entries() =~= Seq::<(Seq<char>, Seq<char>)>::empty());
        f
    }

    /// The value of the header `name`, if the frame has one.
    pub fn get_header(&self, name: &str) -> (r: Option<&String>)
        requires
            self.wf(),
        ensures
            r is Some <==> self.header_map().dom().contains(name@),
            r matches Some(v) ==> v@ == self.header_map()[name@],
    {
        let n = self.headers.len();
        let mut i: usize = 0;
        while i < n
            invariant
                n == self.headers@.len(),
                i <= n,
                self.wf(),
                forall|j: int| 0 <= j < i ==> (#[trigger] self.entries()[j]).0 != name@,
            decreases n - i,
        {
            if str_eq(self.headers[i].0.as_str(), name) {
                proof {
                    lemma_entry_map_value(self.entries(), i as int);
                }
                return Some(&self.headers[i].1);
            }
            i = i + 1;
        }
        proof {
            lemma_entry_map_dom(self.entries(), name@);
        }
        None
    }
}

/// The headers written one after another, each as its name, `, ` and its
/// value.
pub open spec fn entries_text(es: Seq<(Seq<char>, Seq<char>)>) -> Seq<char>
    decreases es.len(),
{
    if es.len() == 0 {
        Seq::<char>::empty()
    } else {
        entries_text(es.drop_last()) + es.last().0 + ", "@ + es.last().1
    }
}

/// The text form of a frame: the name of its command, then its headers.
pub open spec fn frame_text(kind: Frame, es: Seq<(Seq<char>, Seq<char>)>) -> Seq<char> {
    frame_name(kind) + entries_text(es)
}

impl STOMPFrame {
    /// The text form of the frame: the name of its command followed by each
    /// header as its name, `, ` and its value, in the order the frame holds
    /// them.
    pub fn to_string(&self) -> (s: String)
        ensures
            s@ == frame_text(self.kind, self.entries()),
    {
        let mut s = self.kind.name().to_owned();
        let n = self.headers.len();
        let mut i: usize = 0;
        assert(self.entries().take(0) =~= Seq::<(Seq<char>, Seq<char>)>::empty());
        while i < n
            invariant
                n == self.headers@.len(),
                i <= n,
                s@ == frame_text(self.kind, self.entries().take(i as int)),
            decreases n - i,
        {
            let ghost before = s@;
            s.append(self.headers[i].0.as_str());
            s.append(", ");
            s.append(self.headers[i].1.as_str());
            proof {
                let es = self.entries();
                assert(es.take(i + 1).drop_last() =~= es.take(i as int));
                assert(es.take(i + 1).last() == es[i as int]);
                assert(s@ =~= frame_text(self.kind, es.take(i + 1)));
            }
            i = i + 1;
        }
        assert(self.entries().take(n as int) =~= self.entries());
        s
    }
}

/// Sets header `name` to `value`: the value of an existing header of that name
/// is replaced in place, and a new name goes last.
fn insert_header(headers: &mut Vec<(String, String)>, name: String, value: String)
    requires
        distinct_names(entry_views(old(headers)@)),
    ensures
        distinct_names(entry_views(final(headers)@)),
        entry_map(entry_views(final(headers)@)) == entry_map(entry_views(old(headers)@)).insert(
            name@,
            value@,
        ),
{
    let n = headers.len();
    let mut i: usize = 0;
    while i < n
        invariant
            n == headers@.len(),
            i <= n,
            headers@ == old(headers)@,
            distinct_names(entry_views(headers@)),
            forall|j: int| 0 <= j < i ==> (#[trigger] entry_views(headers@)[j]).0 != name@,
        decreases n - i,
    {
        if str_eq(headers[i].0.as_str(), name.as_str()) {
            let ghost es = entry_views(headers@);
            assert(es[i as int].0 == name@);
            proof {
                lemma_entry_map_update(es, i as int, value@);
            }
            headers.set(i, (name, value));
            assert(entry_views(headers@) =~= es.update(i as int, (es[i as int].0, value@)));
            return;
        }
        i = i + 1;
    }
    let ghost es = entry_views(headers@);
    headers.push((name, value));
    assert(entry_views(headers@).drop_last() =~= es);
    assert(entry_views(headers@).last() == (name@, value@));
    assert forall|a: int, b: int| 0 <= a < b < entry_views(headers@).len() implies #[trigger] entry_views(headers@)[a].0
        != #[trigger] entry_views(headers@)[b].0 by {
        assert(entry_views(headers@)[a] == es[a]);
        if b < n {
            assert(entry_views(headers@)[b] == es[b]);
        }
    }
}

/// Why a text or a byte buffer holds no frame that the parser accepts.
#[derive(Debug, Clone, Copy, PartialEq, Eq, Structural)]
pub enum FrameError {
    /// The bytes are not valid UTF-8.
    InvalidUtf8,
    /// No line is left for the command.
    MissingCommand,
    /// A header line holds no `:`.
    MalformedHeader,
}

/// The reason a text that the parser does not accept is refused.
pub open spec fn text_error(text: Seq<char>) -> FrameError {
    if frame_lines(text).len() == 0 {
        FrameError::MissingCommand
    } else {
        FrameError::MalformedHeader
    }
}

/// Keeps the lines that are neither empty nor a lone NUL.
fn keep_lines(pieces: &Vec<String>) -> (kept: Vec<String>)
    ensures
        views(kept@) == kept_lines(views(pieces@)),
{
    let n = pieces.len();
    let mut kept: Vec<String> = Vec::new();
    let mut i: usize = 0;
    assert(views(pieces@).take(0) =~= Seq::<Seq<char>>::empty());
    assert(views(kept@) =~= Seq::<Seq<char>>::empty());
    while i < n
        invariant
            n == pieces@.len(),
            i <= n,
            views(kept@) == kept_lines(views(pieces@).take(i as int)),
        decreases n - i,
    {
        let l = pieces[i].as_str();
        proof {
            assert(views(pieces@).take(i + 1).drop_last() =~= views(pieces@).take(i as int));
            assert(views(pieces@).take(i + 1).last() == l@);
        }
        if l.unicode_len() != 0 && !str_eq(l, "\0") {
            let line = pieces[i].clone();
            let ghost before = kept@;
            kept.push(line);
            assert(views(kept@) =~= views(before).push(l@));
        }
        i = i + 1;
    }
    assert(views(pieces@).take(n as int) =~= views(pieces@));
    kept
}

/// The parser of STOMP frames.
pub struct STOMPParser;

impl STOMPParser {
    /// A parser.
    pub fn new() -> (p: STOMPParser) {
        STOMPParser
    }

    /// Parses the text of a frame: its lines are split at `\n`, and the empty
    /// ones and those that hold a lone NUL are dropped. The first line left
    /// names the command; each line after it is a header `name:value`.
    pub fn parse(&self, command: &str) -> (frame: STOMPFrame)
        requires
            parseable(command@),
        ensures
            frame.wf(),
            frame.kind == parsed_kind(command@),
            frame.header_map() == parsed_headers(command@),
    {
        match self.try_parse(command) {
            Ok(frame) => frame,
            Err(_) => {
                proof {
                    assert(false);
                }
                STOMPFrame::new()
            },
        }
    }

    /// Parses the text of a frame as `parse` does, or says why the text holds
    /// none.
    pub fn try_parse(&self, command: &str) -> (r: Result<STOMPFrame, FrameError>)
        ensures
            r is Ok <==> parseable(command@),
            r matches Ok(frame) ==> {
                &&& frame.wf()
                &&& frame.kind == parsed_kind(command@)
                &&& frame.header_map() == parsed_headers(command@)
            },
            r matches Err(e) ==> e == text_error(command@),
    {
        let pieces = split_text(command, '\n');
        let lines = keep_lines(&pieces);
        let ghost fl = frame_lines(command@);
        assert(views(lines@) == fl);
        let n = lines.len();
        if n == 0 {
            return Err(FrameError::MissingCommand);
        }
        let mut hm: Vec<(String, String)> = Vec::new();
        let mut j: usize = 1;
        assert(fl.skip(1).take(0) =~= Seq::<Seq<char>>::empty());
        assert(entry_views(hm@) =~= Seq::<(Seq<char>, Seq<char>)>::empty());
        while j < n
            invariant
                1 <= j <= n,
                n == lines@.len(),
                views(lines@) == fl,
                fl == frame_lines(command@),
                forall|i: int| 1 <= i < j ==> is_header_line(#[trigger] fl[i]),
                distinct_names(entry_views(hm@)),
                entry_map(entry_views(hm@)) == headers_of(fl.skip(1).take(j - 1)),
            decreases n - j,
        {
            let line = lines[j].as_str();
            assert(line@ == fl[j as int]);
            let fields = split_text(line, ':');
            if fields.len() < 2 {
                assert(!is_header_line(fl[j as int]));
                return Err(FrameError::MalformedHeader);
            }
            let name = fields[0].clone();
            let value = fields[1].clone();
            assert(name@ == header_entry(fl[j as int]).0);
            assert(value@ == header_entry(fl[j as int]).1);
            insert_header(&mut hm, name, value);
            proof {
                assert(fl.skip(1).take(j as int).drop_last() =~= fl.skip(1).take(j - 1));
                assert(fl.skip(1).take(j as int).last() == fl[j as int]);
            }
            j = j + 1;
        }
        assert(fl.skip(1).take(n - 1) =~= fl.skip(1));
        let kind = Frame::from_command(lines[0].as_str());
        Ok(STOMPFrame { kind: kind, headers: hm })
    }
}

/// `f` is the frame that the parser reads from the text that `bytes` encode.
pub open spec fn frame_of_bytes(f: STOMPFrame, bytes: Seq<u8>) -> bool {
    &&& f.wf()
    &&& f.kind == parsed_kind(decode_utf8(bytes))
    &&& f.header_map() == parsed_headers(decode_utf8(bytes))
}

/// The bytes are UTF-8 and encode a text that the parser accepts.
pub open spec fn frame_bytes_ok(bytes: Seq<u8>) -> bool {
    valid_utf8(bytes) && parseable(decode_utf8(bytes))
}

/// The reason bytes that hold no frame are refused.
pub open spec fn bytes_error(bytes: Seq<u8>) -> FrameError {
    if !valid_utf8(bytes) {
        FrameError::InvalidUtf8
    } else {
        text_error(decode_utf8(bytes))
    }
}

/// Reads a frame from bytes that encode its text in UTF-8.
pub fn frame_from_bytes(bytes: &[u8]) -> (frame: STOMPFrame)
    requires
        frame_bytes_ok(bytes@),
    ensures
        frame_of_bytes(frame, bytes@),
{
    match try_frame_from_bytes(bytes) {
        Ok(frame) => frame,
        Err(_) => {
            proof {
                assert(false);
            }
            STOMPFrame::new()
        },
    }
}

/// Reads a frame from bytes as `frame_from_bytes` does, or says why they hold
/// none.
pub fn try_frame_from_bytes(bytes: &[u8]) -> (r: Result<STOMPFrame, FrameError>)
    ensures
        r is Ok <==> frame_bytes_ok(bytes@),
        r matches Ok(frame) ==> frame_of_bytes(frame, bytes@),
        r matches Err(e) ==> e == bytes_error(bytes@),
{
    match utf8_text(bytes) {
        Some(text) => STOMPParser.try_parse(text),
        None => Err(FrameError::InvalidUtf8),
    }
}

/// The bytes that `encode` writes for every frame: `abhi\r\n`.
pub open spec fn reply_bytes() -> Seq<u8> {
    seq![0x61u8, 0x62u8, 0x68u8, 0x69u8, 0x0du8, 0x0au8]
}

/// What decoding a buffer that held `before` and holds `after` once decoded
/// may give as `r`: nothing from an empty buffer, which stays empty; the
/// frame of the bytes, all taken, when they hold one; and otherwise the
/// reason they hold none, with the buffer left as it was. Only the bytes held
/// decide it.
pub open spec fn decode_outcome(
    before: Seq<u8>,
    after: Seq<u8>,
    r: Result<Option<STOMPFrame>, FrameError>,
) -> bool {
    if before.len() == 0 {
        r == Ok::<Option<STOMPFrame>, FrameError>(None) && after == before
    } else if frame_bytes_ok(before) {
        &&& r matches Ok(Some(frame))
        &&& frame_of_bytes(frame, before)
        &&& after.len() == 0
    } else {
        r == Err::<Option<STOMPFrame>, FrameError>(bytes_error(before)) && after == before
    }
}

/// The codec keeps nothing between calls: decoding buffers that hold the same
/// bytes gives the same outcome, whatever came before, and leaves them holding
/// the same bytes; a frame read from them has the same command and headers.
pub proof fn lemma_decode_stateless(
    before: Seq<u8>,
    after1: Seq<u8>,
    r1: Result<Option<STOMPFrame>, FrameError>,
    after2: Seq<u8>,
    r2: Result<Option<STOMPFrame>, FrameError>,
)
    requires
        decode_outcome(before, after1, r1),
        decode_outcome(before, after2, r2),
    ensures
        after1 == after2,
        r1 is Ok <==> r2 is Ok,
        r1 matches Err(e1) ==> r2 == Err::<Option<STOMPFrame>, FrameError>(e1),
        r1 matches Ok(None) ==> r2 == Ok::<Option<STOMPFrame>, FrameError>(None),
        r1 matches Ok(Some(f1)) ==> (r2 matches Ok(Some(f2)) && f1.kind == f2.kind && f1.header_map()
            == f2.header_map()),
{
    if before.len() > 0 && frame_bytes_ok(before) {
        assert(after1 =~= after2);
    }
}

/// The codec that turns buffers of bytes into frames and frames into bytes.
pub struct STOMPCodec;

impl STOMPCodec {
    /// A codec.
    pub fn new() -> (c: STOMPCodec) {
        STOMPCodec {  }
    }

    /// Takes every byte of a non-empty buffer and reads one frame from them;
    /// an empty buffer gives no frame.
    pub fn decode(&mut self, buf: &mut BytesMut) -> (r: Option<STOMPFrame>)
        requires
            buffer_bytes(*old(buf)).len() > 0 ==> frame_bytes_ok(buffer_bytes(*old(buf))),
        ensures
            buffer_bytes(*final(buf)).len() == 0,
            r is Some <==> buffer_bytes(*old(buf)).len() > 0,
            r matches Some(frame) ==> frame_of_bytes(frame, buffer_bytes(*old(buf))),
            decode_outcome(buffer_bytes(*old(buf)), buffer_bytes(*final(buf)), Ok(r)),
            *final(self) == *old(self),
    {
        if !buffer_is_empty(buf) {
            let len = buffer_len(buf);
            let taken = buffer_split_to(buf, len);
            assert(buffer_bytes(taken) =~= buffer_bytes(*old(buf)));
            let frame = frame_from_bytes(buffer_as_slice(&taken));
            Some(frame)
        } else {
            None
        }
    }

    /// Decodes as `decode` does, or says why the bytes held hold no frame and
    /// leaves the buffer as it was.
    pub fn try_decode(&mut self, buf: &mut BytesMut) -> (r: Result<Option<STOMPFrame>, FrameError>)
        ensures
            r is Ok <==> (buffer_bytes(*old(buf)).len() > 0 ==> frame_bytes_ok(buffer_bytes(*old(buf)))),
            r matches Ok(Some(frame)) ==> buffer_bytes(*old(buf)).len() > 0 && frame_of_bytes(frame, buffer_bytes(*old(buf))),
            r matches Ok(None) ==> buffer_bytes(*old(buf)).len() == 0,
            r is Ok ==> buffer_bytes(*final(buf)).len() == 0,
            r matches Err(e) ==> e == bytes_error(buffer_bytes(*old(buf))) && buffer_bytes(*final(buf)) == buffer_bytes(*old(buf)),
            decode_outcome(buffer_bytes(*old(buf)), buffer_bytes(*final(buf)), r),
            *final(self) == *old(self),
    {
        if buffer_is_empty(buf) {
            return Ok(None);
        }
        match try_frame_from_bytes(buffer_as_slice(buf)) {
            Ok(frame) => {
                let len = buffer_len(buf);
                let _taken = buffer_split_to(buf, len);
                Ok(Some(frame))
            },
            Err(e) => Err(e),
        }
    }

    /// Writes the reply for a frame: whatever the frame, the bytes `abhi\r\n`
    /// are appended to `dst`.
    pub fn encode(&mut self, item: STOMPFrame, dst: &mut BytesMut)
        requires
            buffer_bytes(*old(dst)).len() + 10 <= isize::MAX,
        ensures
            buffer_bytes(*final(dst)) == buffer_bytes(*old(dst)) + reply_bytes(),
            *final(self) == *old(self),
    {
        buffer_reserve(dst, 10);
        let reply: Vec<u8> = vec![0x61u8, 0x62u8, 0x68u8, 0x69u8, 0x0du8, 0x0au8];
        assert(reply@ =~= reply_bytes());
        buffer_extend(dst, reply.as_slice());
    }
}

/// One of the nine commands that a client sends.
pub open spec fn is_client_command(f: Frame) -> bool {
    match f {
        Frame::Message | Frame::Receipt | Frame::Error | Frame::Invalid => false,
        _ => true,
    }
}

/// The name of a command, parsed, gives that command back when it is one of
/// the nine that a client sends, and `Invalid` for the others; it carries no
/// headers.
pub proof fn lemma_parse_command_name(f: Frame)
    ensures
        parseable(frame_name(f)),
        parsed_kind(frame_name(f)) == (if is_client_command(f) {
            f
        } else {
            Frame::Invalid
        }),
        parsed_headers(frame_name(f)) == Map::<Seq<char>, Seq<char>>::empty(),
{
    reveal_strlit("SEND");
    reveal_strlit("SUBSCRIBE");
    reveal_strlit("UNSUBSCRIBE");
    reveal_strlit("BEGIN");
    reveal_strlit("COMMIT");
    reveal_strlit("ABORT");
    reveal_strlit("ACK");
    reveal_strlit("NACK");
    reveal_strlit("DISCONNECT");
    reveal_strlit("MESSAGE");
    reveal_strlit("RECEIPT");
    reveal_strlit("ERROR");
    reveal_strlit("INVALID");
    reveal_strlit("\0");
    let name = frame_name(f);
    assert(name.len() >= 3);
    assert(forall|i: int| 0 <= i < name.len() ==> name[i] != '\n');
    lemma_split_on_absent(name, '\n');
    assert(name != "\0"@);
    let one = seq![name];
    assert(one.drop_last() =~= Seq::<Seq<char>>::empty());
    assert(kept_lines(one.drop_last()) =~= Seq::<Seq<char>>::empty());
    assert(one.last() == name);
    assert(is_kept_line(name));
    assert(kept_lines(one) =~= one);
    assert(frame_lines(name).skip(1) =~= Seq::<Seq<char>>::empty());
}

/// A header name is set exactly when some header line gives it, and then its
/// value is the one that the last such line gives.
pub proof fn lemma_last_header_wins(lines: Seq<Seq<char>>, name: Seq<char>)
    ensures
        headers_of(lines).dom().contains(name) <==> exists|i: int|
            0 <= i < lines.len() && (#[trigger] header_entry(lines[i])).0 == name,
        forall|i: int|
            0 <= i < lines.len() && (#[trigger] header_entry(lines[i])).0 == name && (forall|j: int|
                i < j < lines.len() ==> (#[trigger] header_entry(lines[j])).0 != name) ==> headers_of(
                lines,
            )[name] == header_entry(lines[i]).1,
    decreases lines.len(),
{
    if lines.len() > 0 {
        let d = lines.drop_last();
        lemma_last_header_wins(d, name);
        assert forall|i: int| 0 <= i < d.len() implies #[trigger] d[i] == lines[i] by {}
        if exists|i: int| 0 <= i < lines.len() && (#[trigger] header_entry(lines[i])).0 == name {
            let i = choose|i: int| 0 <= i < lines.len() && (#[trigger] header_entry(lines[i])).0 == name;
            if i < d.len() {
                assert(header_entry(d[i]).0 == name);
            }
        }
        if headers_of(d).dom().contains(name) {
            let i = choose|i: int| 0 <= i < d.len() && (#[trigger] header_entry(d[i])).0 == name;
            assert(header_entry(lines[i]).0 == name);
        }
        assert forall|i: int|
            0 <= i < lines.len() && (#[trigger] header_entry(lines[i])).0 == name && (forall|j: int|
                i < j < lines.len() ==> (#[trigger] header_entry(lines[j])).0 != name) implies headers_of(
            lines,
        )[name] == header_entry(lines[i]).1 by {
            if i < d.len() {
                assert(header_entry(lines[lines.len() - 1]).0 != name);
                assert(header_entry(d[i]).0 == name);
                assert forall|j: int| i < j < d.len() implies (#[trigger] header_entry(d[j])).0 != name by {
                    assert(header_entry(lines[j]).0 != name);
                }
            }
        }
    }
}

/// Keeping the lines of two lists one after the other keeps those of each.
pub proof fn lemma_kept_lines_concat(s: Seq<Seq<char>>, t: Seq<Seq<char>>)
    ensures
        kept_lines(s + t) == kept_lines(s) + kept_lines(t),
    decreases t.len(),
{
    if t.len() == 0 {
        assert(s + t =~= s);
        assert(kept_lines(s) + kept_lines(t) =~= kept_lines(s));
    } else {
        lemma_kept_lines_concat(s, t.drop_last());
        assert((s + t).drop_last() =~= s + t.drop_last());
        assert((s + t).last() == t.last());
        if is_kept_line(t.last()) {
            assert(kept_lines(s + t) =~= kept_lines(s) + kept_lines(t));
        }
    }
}

/// An empty line or a line holding a lone NUL, put in at the start of a line,
/// changes nothing the parser reads: the same lines are kept, so the text is
/// accepted exactly when it was before, with the same command and headers.
pub proof fn lemma_ignored_line(x: Seq<char>, ins: Seq<char>, y: Seq<char>)
    requires
        x.len() == 0 || x.last() == '\n',
        ins == seq!['\n'] || ins == seq!['\0', '\n'],
    ensures
        frame_lines(x + ins + y) == frame_lines(x + y),
        parseable(x + ins + y) == parseable(x + y),
        parsed_kind(x + ins + y) == parsed_kind(x + y),
        parsed_headers(x + ins + y) == parsed_headers(x + y),
{
    reveal_strlit("\0");
    assert("\0"@ =~= seq!['\0']);
    lemma_split_on_len(y, '\n');
    let e = Seq::<char>::empty();
    let sx = split_on(x, '\n');
    let sy = split_on(y, '\n');
    if x.len() > 0 {
        assert(x.drop_last().push(x.last()) =~= x);
    }
    assert(sx.last() == e);
    lemma_split_on_concat(x, y, '\n');
    assert(sx.last() + sy[0] =~= sy[0]);
    let p = sx.drop_last();
    let rest = seq![sy[0]] + sy.skip(1);
    assert(split_on(x + y, '\n') == p + rest);
    let a = x + ins;
    lemma_split_on_concat(a, y, '\n');
    let mid: Seq<Seq<char>> = if ins == seq!['\n'] {
        assert(a.drop_last() =~= x);
        assert(a.last() == '\n');
        seq![e]
    } else {
        let x0 = x.push('\0');
        assert(a.drop_last() =~= x0);
        assert(a.last() == '\n');
        assert(x0.drop_last() =~= x);
        assert(x0.last() == '\0');
        assert(split_on(x0, '\n') =~= p.push(seq!['\0']));
        seq![seq!['\0']]
    };
    assert(split_on(a, '\n') =~= p + mid + seq![e]);
    assert(split_on(a, '\n').drop_last() =~= p + mid);
    assert(split_on(a, '\n').last() + sy[0] =~= sy[0]);
    assert(split_on(x + ins + y, '\n') =~= p + mid + rest);
    lemma_kept_lines_concat(p + mid, rest);
    lemma_kept_lines_concat(p, mid);
    lemma_kept_lines_concat(p, rest);
    assert(mid.drop_last() =~= Seq::<Seq<char>>::empty());
    assert(kept_lines(mid.drop_last()) =~= Seq::<Seq<char>>::empty());
    assert(mid.len() == 1);
    assert(mid.last() == e || mid.last() == seq!['\0']);
    assert(!is_kept_line(mid.last()));
    assert(kept_lines(mid) =~= Seq::<Seq<char>>::empty());
    assert(kept_lines(p) + kept_lines(mid) =~= kept_lines(p));
}

/// A header line `name:value`, where neither part holds a `:`, gives exactly
/// that name and that whole value, spaces and all; anything from a second `:`
/// on is not part of the value.
pub proof fn lemma_header_entry(name: Seq<char>, value: Seq<char>, rest: Seq<char>)
    requires
        !name.contains(':'),
        !value.contains(':'),
        rest.len() == 0 || rest[0] == ':',
    ensures
        is_header_line(name + seq![':'] + value + rest),
        header_entry(name + seq![':'] + value + rest) == (name, value),
{
    let e = Seq::<char>::empty();
    assert forall|i: int| 0 <= i < name.len() implies name[i] != ':' by {
        if name[i] == ':' {
            assert(name.contains(':'));
        }
    }
    assert forall|i: int| 0 <= i < value.len() implies value[i] != ':' by {
        if value[i] == ':' {
            assert(value.contains(':'));
        }
    }
    lemma_split_on_absent(name, ':');
    lemma_split_on_absent(value, ':');
    let a1 = name + seq![':'];
    assert(a1.drop_last() =~= name);
    assert(a1.last() == ':');
    assert(split_on(a1, ':') =~= seq![name, e]);
    let a2 = a1 + value;
    lemma_split_on_concat(a1, value, ':');
    assert(e + value =~= value);
    assert(split_on(a2, ':') =~= seq![name, value]);
    lemma_split_on_concat(a2, rest, ':');
    lemma_split_on_len(rest, ':');
    if rest.len() == 0 {
        assert(rest =~= e);
        assert(split_on(rest, ':')[0] == e);
    } else {
        lemma_split_on_leading_sep(rest, ':');
    }
    assert(value + split_on(rest, ':')[0] =~= value);
    let whole = split_on(a2 + rest, ':');
    assert(whole[0] == name);
    assert(whole[1] == value);
}

/// The parser accepts a text exactly when at least one line is kept and
/// every kept line after the first holds a `:`, however many such lines
/// there are.
pub proof fn lemma_parseable_iff(text: Seq<char>)
    ensures
        parseable(text) <==> (frame_lines(text).len() >= 1 && forall|i: int|
            1 <= i < frame_lines(text).len() ==> (#[trigger] frame_lines(text)[i]).contains(':')),
{
    let fl = frame_lines(text);
    assert forall|i: int| 1 <= i < fl.len() implies (is_header_line(#[trigger] fl[i]) <==> fl[i].contains(':')) by {
        lemma_split_on_two_iff(fl[i], ':');
    }
}

/// The text form holds every header: with no headers it is the command's
/// name, and one header more adds its name, `, ` and its value at the end.
pub proof fn lemma_frame_text_every_header(
    kind: Frame,
    es: Seq<(Seq<char>, Seq<char>)>,
    e: (Seq<char>, Seq<char>),
)
    ensures
        frame_text(kind, Seq::<(Seq<char>, Seq<char>)>::empty()) == frame_name(kind),
        frame_text(kind, es.push(e)) == frame_text(kind, es) + e.0 + ", "@ + e.1,
{
    assert(frame_name(kind) + Seq::<char>::empty() =~= frame_name(kind));
    assert(es.push(e).drop_last() =~= es);
    assert(frame_text(kind, es.push(e)) =~= frame_text(kind, es) + e.0 + ", "@ + e.1);
}

} // verus!
