use vstd::prelude::*;
use vstd::utf8::*;

verus! {

/// The frame terminator.
pub const NEWLINE: u8 = 10;

/// The field separator inside a frame.
pub const SPACE: u8 = 32;

/// Index of the first `b` in `s` at or after `from`, or `s.len()` when there is none.
pub open spec fn first_from(s: Seq<u8>, from: int, b: u8) -> int
    decreases s.len() - from,
{
    if from < 0 || from >= s.len() {
        s.len() as int
    } else if s[from] == b {
        from
    } else {
        first_from(s, from + 1, b)
    }
}

pub proof fn lemma_first_from(s: Seq<u8>, from: int, b: u8)
    requires
        0 <= from <= s.len(),
    ensures
        from <= first_from(s, from, b) <= s.len(),
        first_from(s, from, b) < s.len() ==> s[first_from(s, from, b)] == b,
        forall|j: int| from <= j < first_from(s, from, b) ==> s[j] != b,
    decreases s.len() - from,
{
    if from < s.len() && s[from] != b {
        lemma_first_from(s, from + 1, b);
    }
}

/// Returns the index of the first `b` in `s` at or after `from`, or `s.len()`.
pub fn find_byte(s: &Vec<u8>, from: usize, b: u8) -> (r: usize)
    requires
        from <= s.len(),
    ensures
        r == first_from(s@, from as int, b),
{
    let mut i: usize = from;
    while i < s.len()
        invariant
            from <= i <= s.len(),
            first_from(s@, from as int, b) == first_from(s@, i as int, b),
        decreases s.len() - i,
    {
        if s[i] == b {
            return i;
        }
        i = i + 1;
    }
    i
}

/// Copies `s[from..to]` into a new vector.
pub fn copy_range(s: &Vec<u8>, from: usize, to: usize) -> (r: Vec<u8>)
    requires
        from <= to <= s.len(),
    ensures
        r@ == s@.subrange(from as int, to as int),
{
    let mut r: Vec<u8> = Vec::new();
    let mut i: usize = from;
    while i < to
        invariant
            from <= i <= to <= s.len(),
            r@ == s@.subrange(from as int, i as int),
        decreases to - i,
    {
        r.push(s[i]);
        i = i + 1;
    }
    r
}

/// Whether two byte vectors hold the same bytes.
pub fn same_bytes(a: &Vec<u8>, b: &Vec<u8>) -> (r: bool)
    ensures
        r == (a@ == b@),
{
    if a.len() != b.len() {
        return false;
    }
    let mut i: usize = 0;
    while i < a.len()
        invariant
            a.len() == b.len(),
            0 <= i <= a.len(),
            forall|j: int| 0 <= j < i ==> a@[j] == b@[j],
        decreases a.len() - i,
    {
        if a[i] != b[i] {
            return false;
        }
        i = i + 1;
    }
    assert(a@ =~= b@);
    true
}

/// Relies on std::str::from_utf8: it succeeds exactly on valid UTF-8, and then
/// yields the characters that the bytes encode.
#[verifier::external_body]
fn text_from_utf8(b: &[u8]) -> (r: Option<String>)
    ensures
        r is Some <==> valid_utf8(b@),
        r is Some ==> r->Some_0@ == decode_utf8(b@),
{
    match std::str::from_utf8(b) {
        Ok(t) => Some(t.to_string()),
        Err(_) => None,
    }
}

/// A request decoded from one frame.
#[derive(Debug, Clone, PartialEq, Eq)]
pub enum Command {
    Get(String),
    Put(String, String),
    Quit,
}

/// What a decoded request means: keys and values as character sequences.
pub enum CommandSpec {
    Get(Seq<char>),
    Put(Seq<char>, Seq<char>),
    Quit,
}

impl View for Command {
    type V = CommandSpec;

    open spec fn view(&self) -> CommandSpec {
        match self {
            Command::Get(k) => CommandSpec::Get(k@),
            Command::Put(k, v) => CommandSpec::Put(k@, v@),
            Command::Quit => CommandSpec::Quit,
        }
    }
}

/// Why a frame could not be decoded; each one ends the connection.
#[derive(Debug, Clone, PartialEq, Eq)]
pub enum DecodeError {
    MissingCommand,
    MissingKey,
    MissingKeyOrValue,
    UnknownCommand(String),
    InvalidText,
}

/// The meaning of a decode error, with the offending word as characters.
pub enum DecodeErrorSpec {
    MissingCommand,
    MissingKey,
    MissingKeyOrValue,
    UnknownCommand(Seq<char>),
    InvalidText,
}

impl View for DecodeError {
    type V = DecodeErrorSpec;

    open spec fn view(&self) -> DecodeErrorSpec {
        match self {
            DecodeError::MissingCommand => DecodeErrorSpec::MissingCommand,
            DecodeError::MissingKey => DecodeErrorSpec::MissingKey,
            DecodeError::MissingKeyOrValue => DecodeErrorSpec::MissingKeyOrValue,
            DecodeError::UnknownCommand(w) => DecodeErrorSpec::UnknownCommand(w@),
            DecodeError::InvalidText => DecodeErrorSpec::InvalidText,
        }
    }
}

impl DecodeError {
    /// The message that describes this error.
    pub fn message(&self) -> (r: String)
        ensures
            r@ == match self {
                DecodeError::MissingCommand => "missing command"@,
                DecodeError::MissingKey => "get: missing key"@,
                DecodeError::MissingKeyOrValue => "set: missing key and/or value"@,
                DecodeError::UnknownCommand(w) => "unknown command: "@ + w@,
                DecodeError::InvalidText => "frame is not valid UTF-8"@,
            },
    {
        broadcast use vstd::string::to_string_from_display_ensures_for_str;

        match self {
            DecodeError::MissingCommand => "missing command".to_string(),
            DecodeError::MissingKey => "get: missing key".to_string(),
            DecodeError::MissingKeyOrValue => "set: missing key and/or value".to_string(),
            DecodeError::UnknownCommand(w) => {
                let mut m = "unknown command: ".to_string();
                m.append(w.as_str());
                m
            },
            DecodeError::InvalidText => "frame is not valid UTF-8".to_string(),
        }
    }
}

/// Where field `k` of a frame payload starts; fields are separated by single spaces.
pub open spec fn field_start(p: Seq<u8>, k: nat) -> int
    decreases k,
{
    if k == 0 {
        0
    } else {
        first_from(p, field_start(p, (k - 1) as nat), SPACE) + 1
    }
}

/// Where field `k` of a frame payload ends (exclusive).
pub open spec fn field_end(p: Seq<u8>, k: nat) -> int {
    first_from(p, field_start(p, k), SPACE)
}

/// Whether the payload has at least `k + 1` fields.
pub open spec fn has_field(p: Seq<u8>, k: nat) -> bool {
    field_start(p, k) <= p.len()
}

/// The bytes of field `k`.
pub open spec fn field(p: Seq<u8>, k: nat) -> Seq<u8> {
    p.subrange(field_start(p, k), field_end(p, k))
}

pub open spec fn get_word() -> Seq<u8> {
    seq![103u8, 101u8, 116u8]
}

pub open spec fn set_word() -> Seq<u8> {
    seq![115u8, 101u8, 116u8]
}

pub open spec fn quit_word() -> Seq<u8> {
    seq![113u8, 117u8, 105u8, 116u8]
}

/// The meaning of one frame payload (the bytes before its newline).
pub open spec fn parse_payload(p: Seq<u8>) -> Result<CommandSpec, DecodeErrorSpec> {
    if !valid_utf8(p) {
        Err(DecodeErrorSpec::InvalidText)
    } else if p.len() == 0 {
        Err(DecodeErrorSpec::MissingCommand)
    } else if field(p, 0) == get_word() {
        if has_field(p, 1) {
            Ok(CommandSpec::Get(decode_utf8(field(p, 1))))
        } else {
            Err(DecodeErrorSpec::MissingKey)
        }
    } else if field(p, 0) == set_word() {
        if has_field(p, 2) {
            Ok(CommandSpec::Put(decode_utf8(field(p, 1)), decode_utf8(field(p, 2))))
        } else {
            Err(DecodeErrorSpec::MissingKeyOrValue)
        }
    } else if field(p, 0) == quit_word() {
        Ok(CommandSpec::Quit)
    } else {
        Err(DecodeErrorSpec::UnknownCommand(decode_utf8(field(p, 0))))
    }
}

pub proof fn lemma_field_bounds(p: Seq<u8>, k: nat)
    requires
        has_field(p, k),
    ensures
        0 <= field_start(p, k) <= field_end(p, k) <= p.len(),
        k == 0 || p[field_start(p, k) - 1] == SPACE,
        field_end(p, k) == p.len() || p[field_end(p, k)] == SPACE,
        has_field(p, k + 1) <==> field_end(p, k) < p.len(),
        field_start(p, k + 1) == field_end(p, k) + 1,
    decreases k,
{
    if k > 0 {
        lemma_first_from(p, field_start(p, (k - 1) as nat), SPACE);
        lemma_field_bounds(p, (k - 1) as nat);
    }
    lemma_first_from(p, field_start(p, k), SPACE);
}

/// Text between two separators of valid text is valid text.
proof fn lemma_between_spaces_valid(p: Seq<u8>, a: int, b: int)
    requires
        valid_utf8(p),
        0 <= a <= b <= p.len(),
        a == 0 || p[a - 1] == SPACE,
        b == p.len() || p[b] == SPACE,
    ensures
        valid_utf8(p.subrange(a, b)),
{
    let q = p.subrange(a, p.len() as int);
    if a == 0 {
        assert(q =~= p);
    } else {
        is_char_boundary_iff_not_is_continuation_byte(p, a - 1);
        valid_utf8_split(p, a - 1);
        let q0 = p.subrange(a - 1, p.len() as int);
        assert(q0[0] == SPACE);
        assert(pop_first_scalar(q0) =~= q);
    }
    if b < p.len() {
        assert(q[b - a] == SPACE);
        is_char_boundary_iff_not_is_continuation_byte(q, b - a);
    } else {
        is_char_boundary_start_end_of_seq(q);
    }
    valid_utf8_split(q, b - a);
    assert(q.subrange(0, b - a) =~= p.subrange(a, b));
}

proof fn lemma_field_valid(p: Seq<u8>, k: nat)
    requires
        valid_utf8(p),
        has_field(p, k),
    ensures
        valid_utf8(field(p, k)),
{
    lemma_field_bounds(p, k);
    lemma_between_spaces_valid(p, field_start(p, k), field_end(p, k));
}

/// Text of field `k`, which exists in the valid payload `p`.
fn field_text(p: &Vec<u8>, k: Ghost<nat>, from: usize) -> (r: String)
    requires
        valid_utf8(p@),
        has_field(p@, k@),
        from == field_start(p@, k@),
    ensures
        r@ == decode_utf8(field(p@, k@)),
{
    proof {
        lemma_field_bounds(p@, k@);
        lemma_field_valid(p@, k@);
    }
    let end = find_byte(p, from, SPACE);
    let f = copy_range(p, from, end);
    match text_from_utf8(f.as_slice()) {
        Some(t) => t,
        None => String::new(),
    }
}

/// Decodes one frame payload into a command.
pub fn parse_frame(p: &Vec<u8>) -> (r: Result<Command, DecodeError>)
    ensures
        match r {
            Ok(c) => parse_payload(p@) == Ok::<CommandSpec, DecodeErrorSpec>(c@),
            Err(e) => parse_payload(p@) == Err::<CommandSpec, DecodeErrorSpec>(e@),
        },
{
    if text_from_utf8(p.as_slice()).is_none() {
        return Err(DecodeError::InvalidText);
    }
    if p.len() == 0 {
        return Err(DecodeError::MissingCommand);
    }
    proof {
        lemma_field_bounds(p@, 0);
    }
    let e0 = find_byte(p, 0, SPACE);
    let word = copy_range(p, 0, e0);
    if same_bytes(&word, &vec![103u8, 101u8, 116u8]) {
        if e0 < p.len() {
            proof {
                lemma_field_bounds(p@, 1);
            }
            let key = field_text(p, Ghost(1), e0 + 1);
            Ok(Command::Get(key))
        } else {
            Err(DecodeError::MissingKey)
        }
    } else if same_bytes(&word, &vec![115u8, 101u8, 116u8]) {
        if e0 < p.len() {
            proof {
                lemma_field_bounds(p@, 1);
            }
            let e1 = find_byte(p, e0 + 1, SPACE);
            if e1 < p.len() {
                proof {
                    lemma_field_bounds(p@, 2);
                }
                let key = field_text(p, Ghost(1), e0 + 1);
                let value = field_text(p, Ghost(2), e1 + 1);
                Ok(Command::Put(key, value))
            } else {
                Err(DecodeError::MissingKeyOrValue)
            }
        } else {
            Err(DecodeError::MissingKeyOrValue)
        }
    } else if same_bytes(&word, &vec![113u8, 117u8, 105u8, 116u8]) {
        Ok(Command::Quit)
    } else {
        Err(DecodeError::UnknownCommand(field_text(p, Ghost(0), 0)))
    }
}

/// Whether the buffer holds a complete frame, that is a newline.
pub open spec fn has_frame(s: Seq<u8>) -> bool {
    first_from(s, 0, NEWLINE) < s.len()
}

/// The payload of the first frame: the bytes before the first newline.
pub open spec fn frame_payload(s: Seq<u8>) -> Seq<u8> {
    s.subrange(0, first_from(s, 0, NEWLINE))
}

/// What stays buffered after the first frame and its newline are taken.
pub open spec fn frame_rest(s: Seq<u8>) -> Seq<u8> {
    s.subrange(first_from(s, 0, NEWLINE) + 1, s.len() as int)
}

/// The bytes that encode one response: none for an empty response, else the
/// text followed by a newline.
pub open spec fn encode_response(t: Seq<char>) -> Seq<u8> {
    if t.len() == 0 {
        Seq::empty()
    } else {
        encode_utf8(t).push(NEWLINE)
    }
}

/// The line codec: decodes request frames and encodes responses.
pub struct LineCodec;

impl LineCodec {
    /// Takes at most one frame from the front of `buf`. With no newline in
    /// `buf` it returns `Ok(None)` and leaves `buf` as it is; otherwise it
    /// removes the frame and its newline and decodes the payload.
    pub fn decode(&mut self, buf: &mut Vec<u8>) -> (r: Result<Option<Command>, DecodeError>)
        ensures
            match r {
                Ok(None) => !has_frame(old(buf)@) && final(buf)@ == old(buf)@,
                Ok(Some(c)) => has_frame(old(buf)@) && final(buf)@ == frame_rest(old(buf)@)
                    && parse_payload(frame_payload(old(buf)@)) == Ok::<
                    CommandSpec,
                    DecodeErrorSpec,
                >(c@),
                Err(e) => has_frame(old(buf)@) && final(buf)@ == frame_rest(old(buf)@)
                    && parse_payload(frame_payload(old(buf)@)) == Err::<
                    CommandSpec,
                    DecodeErrorSpec,
                >(e@),
            },
    {
        let i = find_byte(buf, 0, NEWLINE);
        if i == buf.len() {
            return Ok(None);
        }
        proof {
            lemma_first_from(buf@, 0, NEWLINE);
        }
        let line = copy_range(buf, 0, i);
        let rest = copy_range(buf, i + 1, buf.len());
        *buf = rest;
        match parse_frame(&line) {
            Ok(c) => Ok(Some(c)),
            Err(e) => Err(e),
        }
    }

    /// Appends the encoding of `msg` to `buf`: nothing for an empty message,
    /// else its bytes and a newline.
    pub fn encode(&mut self, msg: String, buf: &mut Vec<u8>)
        ensures
            final(buf)@ == old(buf)@ + encode_response(msg@),
    {
        let b = msg.as_str().as_bytes();
        if msg.as_str().is_empty() {
            assert(old(buf)@ + encode_response(msg@) =~= old(buf)@);
            return;
        }
        let ghost start = buf@;
        let mut i: usize = 0;
        while i < b.len()
            invariant
                0 <= i <= b.len(),
                b@ == encode_utf8(msg@),
                buf@ == start + b@.subrange(0, i as int),
            decreases b.len() - i,
        {
            buf.push(b[i]);
            i = i + 1;
            assert(buf@ =~= start + b@.subrange(0, i as int));
        }
        buf.push(NEWLINE);
        assert(buf@ =~= start + encode_response(msg@));
    }
}

proof fn lemma_first_from_at(s: Seq<u8>, from: int, to: int, b: u8)
    requires
        0 <= from <= to <= s.len(),
        forall|j: int| from <= j < to ==> s[j] != b,
        to == s.len() || s[to] == b,
    ensures
        first_from(s, from, b) == to,
    decreases to - from,
{
    if from < to {
        lemma_first_from_at(s, from + 1, to, b);
    }
}

proof fn lemma_ascii_valid(s: Seq<u8>)
    requires
        forall|i: int| 0 <= i < s.len() ==> s[i] < 0x80,
    ensures
        valid_utf8(s),
    decreases s.len(),
{
    if s.len() > 0 {
        lemma_ascii_valid(s.subrange(1, s.len() as int));
        assert(pop_first_scalar(s) =~= s.subrange(1, s.len() as int));
    }
}

/// A `set` request line, whose key and value are valid text with no space or
/// newline, decodes to a write of that key and value as soon as its newline is
/// buffered, whatever follows it; what follows stays buffered.
pub proof fn lemma_put_round_trip(k: Seq<u8>, v: Seq<u8>, tail: Seq<u8>)
    requires
        valid_utf8(k),
        valid_utf8(v),
        !k.contains(SPACE),
        !k.contains(NEWLINE),
        !v.contains(SPACE),
        !v.contains(NEWLINE),
    ensures
        has_frame(set_word() + seq![SPACE] + k + seq![SPACE] + v + seq![NEWLINE] + tail),
        frame_rest(set_word() + seq![SPACE] + k + seq![SPACE] + v + seq![NEWLINE] + tail)
            == tail,
        parse_payload(
            frame_payload(set_word() + seq![SPACE] + k + seq![SPACE] + v + seq![NEWLINE] + tail),
        ) == Ok::<CommandSpec, DecodeErrorSpec>(CommandSpec::Put(decode_utf8(k), decode_utf8(v))),
{
    let p = set_word() + seq![SPACE] + k + seq![SPACE] + v;
    let s = set_word() + seq![SPACE] + k + seq![SPACE] + v + seq![NEWLINE] + tail;
    let kl = k.len() as int;
    let vl = v.len() as int;
    assert(p.len() == 5 + kl + vl);
    assert forall|j: int| 0 <= j < p.len() implies s[j] != NEWLINE && s[j] == p[j] by {
        if 4 <= j < 4 + kl {
            assert(p[j] == k[j - 4]);
        } else if 5 + kl <= j {
            assert(p[j] == v[j - 5 - kl]);
        }
    }
    lemma_first_from_at(s, 0, p.len() as int, NEWLINE);
    assert(frame_payload(s) =~= p);
    assert(frame_rest(s) =~= tail);
    lemma_ascii_valid(set_word());
    lemma_ascii_valid(seq![SPACE]);
    valid_utf8_concat(set_word(), seq![SPACE]);
    valid_utf8_concat(set_word() + seq![SPACE], k);
    valid_utf8_concat(set_word() + seq![SPACE] + k, seq![SPACE]);
    valid_utf8_concat(set_word() + seq![SPACE] + k + seq![SPACE], v);
    lemma_first_from_at(p, 0, 3, SPACE);
    assert forall|j: int| 4 <= j < 4 + kl implies p[j] != SPACE by {
        assert(p[j] == k[j - 4]);
    }
    lemma_first_from_at(p, 4, 4 + kl, SPACE);
    assert forall|j: int| 5 + kl <= j < p.len() implies p[j] != SPACE by {
        assert(p[j] == v[j - 5 - kl]);
    }
    lemma_first_from_at(p, 5 + kl, p.len() as int, SPACE);
    assert(field_start(p, 1) == 4);
    assert(field_start(p, 2) == 5 + kl);
    assert(field(p, 0) =~= set_word());
    assert(field(p, 1) =~= k);
    assert(field(p, 2) =~= v);
    assert(field(p, 0) != get_word()) by {
        assert(field(p, 0)[0] != get_word()[0]);
    }
}

} // verus!
