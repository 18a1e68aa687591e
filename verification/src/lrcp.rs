use vstd::prelude::*;

use crate::unicode::{is_utf8, trim_end_len, trim_end_len_of};
use vstd::utf8::{length_of_first_scalar, pop_first_scalar, valid_first_scalar, valid_utf8};

use crate::text::{
    bytes_equal,    decimal, find_byte, first_index_of, format_usize, lemma_parse_decimal, parse_usize,
    parsed_usize, replace_bytes, replaced,
};

verus! {

pub open spec fn slash() -> Seq<u8> {
    seq![47u8]
}

pub open spec fn backslash() -> Seq<u8> {
    seq![92u8]
}

/// The data of a payload as the wire carries it: each `/` first becomes `\/`,
/// then each `\` becomes `\\`.
pub open spec fn escaped(s: Seq<u8>) -> Seq<u8> {
    replaced(replaced(s, slash(), seq![92u8, 47u8]), backslash(), seq![92u8, 92u8])
}

/// The data of a payload read from the wire: each `\/` first becomes `/`, then
/// each `\\` becomes `\`.
pub open spec fn unescaped(s: Seq<u8>) -> Seq<u8> {
    replaced(replaced(s, seq![92u8, 47u8], slash()), seq![92u8, 92u8], backslash())
}

pub fn escape_data(s: &[u8]) -> (r: Vec<u8>)
    ensures
        r@ == escaped(s@),
{
    let sl: Vec<u8> = vec![47];
    let esc_sl: Vec<u8> = vec![92, 47];
    let bs: Vec<u8> = vec![92];
    let esc_bs: Vec<u8> = vec![92, 92];
    assert(sl@ =~= slash());
    assert(bs@ =~= backslash());
    assert(esc_sl@ =~= seq![92u8, 47u8]);
    assert(esc_bs@ =~= seq![92u8, 92u8]);
    let step = replace_bytes(s, sl.as_slice(), esc_sl.as_slice());
    replace_bytes(step.as_slice(), bs.as_slice(), esc_bs.as_slice())
}

pub fn unescape_data(s: &[u8]) -> (r: Vec<u8>)
    ensures
        r@ == unescaped(s@),
{
    let sl: Vec<u8> = vec![47];
    let esc_sl: Vec<u8> = vec![92, 47];
    let bs: Vec<u8> = vec![92];
    let esc_bs: Vec<u8> = vec![92, 92];
    assert(sl@ =~= slash());
    assert(bs@ =~= backslash());
    assert(esc_sl@ =~= seq![92u8, 47u8]);
    assert(esc_bs@ =~= seq![92u8, 92u8]);
    let step = replace_bytes(s, esc_sl.as_slice(), sl.as_slice());
    replace_bytes(step.as_slice(), esc_bs.as_slice(), bs.as_slice())
}

pub open spec fn has_slash(s: Seq<u8>) -> bool {
    exists|i: int| 0 <= i < s.len() && s[i] == 47
}

/// Every `\` of `s` doubled.
pub open spec fn doubled_backslashes(s: Seq<u8>) -> Seq<u8>
    decreases s.len(),
{
    if s.len() == 0 {
        s
    } else if s[0] == 92 {
        seq![92u8, 92u8] + doubled_backslashes(s.drop_first())
    } else {
        seq![s[0]] + doubled_backslashes(s.drop_first())
    }
}

proof fn lemma_no_match_identity(s: Seq<u8>, pat: Seq<u8>, rep: Seq<u8>)
    requires
        pat.len() > 0,
        pat[pat.len() - 1] == 47,
        !has_slash(s),
    ensures
        replaced(s, pat, rep) == s,
    decreases s.len(),
{
    if s.len() >= pat.len() {
        assert(s.take(pat.len() as int) != pat) by {
            assert(s.take(pat.len() as int)[pat.len() - 1] == s[pat.len() - 1]);
        }
        assert(!has_slash(s.drop_first())) by {
            if has_slash(s.drop_first()) {
                let i = choose|i: int| 0 <= i < s.drop_first().len() && s.drop_first()[i] == 47;
                assert(s[i + 1] == 47);
            }
        }
        lemma_no_match_identity(s.drop_first(), pat, rep);
        assert(seq![s[0]] + s.drop_first() =~= s);
    }
}

proof fn lemma_double_backslashes(s: Seq<u8>)
    ensures
        replaced(s, backslash(), seq![92u8, 92u8]) == doubled_backslashes(s),
        replaced(doubled_backslashes(s), seq![92u8, 92u8], backslash()) == s,
        !has_slash(s) ==> !has_slash(doubled_backslashes(s)),
    decreases s.len(),
{
    if s.len() > 0 {
        lemma_double_backslashes(s.drop_first());
        let d = doubled_backslashes(s);
        let rest = doubled_backslashes(s.drop_first());
        assert(s.take(1) =~= seq![s[0]]);
        assert(s.skip(1) =~= s.drop_first());
        if s[0] == 92 {
            assert(d.take(2) =~= seq![92u8, 92u8]);
            assert(d.skip(2) =~= rest);
        } else {
            assert(d.len() >= 2 ==> d.take(2) != seq![92u8, 92u8]) by {
                if d.len() >= 2 {
                    assert(d.take(2)[0] == s[0]);
                }
            }
            assert(d.drop_first() =~= rest);
        }
        assert(seq![s[0]] + s.drop_first() =~= s);
        if !has_slash(s) {
            assert(!has_slash(s.drop_first())) by {
                if has_slash(s.drop_first()) {
                    let i = choose|i: int| 0 <= i < s.drop_first().len() && s.drop_first()[i] == 47;
                    assert(s[i + 1] == 47);
                }
            }
            assert(!has_slash(d)) by {
                if has_slash(d) {
                    let i = choose|i: int| 0 <= i < d.len() && d[i] == 47;
                    if s[0] == 92 {
                        if i >= 2 {
                            assert(rest[i - 2] == 47);
                        }
                    } else {
                        if i >= 1 {
                            assert(rest[i - 1] == 47);
                        } else {
                            assert(s[0] == 47);
                        }
                    }
                }
            }
        }
    }
}

/// Unescaping undoes escaping for data without a `/`.
pub proof fn lemma_unescape_escape(s: Seq<u8>)
    requires
        !has_slash(s),
    ensures
        unescaped(escaped(s)) == s,
{
    lemma_no_match_identity(s, slash(), seq![92u8, 47u8]);
    lemma_double_backslashes(s);
    let d = doubled_backslashes(s);
    lemma_no_match_identity(d, seq![92u8, 47u8], slash());
}


/// A piece of stream data: its position in the stream and its bytes.
#[derive(Debug)]
pub struct Payload {
    pub pos: usize,
    pub data: Vec<u8>,
}

impl View for Payload {
    type V = (usize, Seq<u8>);

    open spec fn view(&self) -> (usize, Seq<u8>) {
        (self.pos, self.data@)
    }
}

/// What `POS/DATA` reads as: the position before the first `/` and the unescaped
/// rest.
pub open spec fn payload_of(s: Seq<u8>) -> Option<(usize, Seq<u8>)> {
    match first_index_of(s, 47) {
        Some(k) => match parsed_usize(s.take(k)) {
            Some(pos) => Some((pos, unescaped(s.skip(k + 1)))),
            None => None,
        },
        None => None,
    }
}

/// The wire form of a payload: `POS/DATA`, the data escaped.
pub open spec fn payload_bytes(p: (usize, Seq<u8>)) -> Seq<u8> {
    decimal(p.0 as nat) + slash() + escaped(p.1)
}

fn copy_bytes(s: &[u8]) -> (r: Vec<u8>)
    ensures
        r@ == s@,
{
    let mut r: Vec<u8> = Vec::new();
    let mut i: usize = 0;
    while i < s.len()
        invariant
            i <= s@.len(),
            r@ == s@.take(i as int),
        decreases s@.len() - i,
    {
        r.push(s[i]);
        assert(s@.take(i + 1) =~= s@.take(i as int).push(s@[i as int]));
        i = i + 1;
    }
    assert(s@.take(s@.len() as int) =~= s@);
    r
}

fn append_bytes(r: &mut Vec<u8>, s: &[u8])
    ensures
        final(r)@ == old(r)@ + s@,
{
    let mut i: usize = 0;
    while i < s.len()
        invariant
            i <= s@.len(),
            r@ == old(r)@ + s@.take(i as int),
        decreases s@.len() - i,
    {
        r.push(s[i]);
        assert(s@.take(i + 1) =~= s@.take(i as int).push(s@[i as int]));
        i = i + 1;
    }
    assert(s@.take(s@.len() as int) =~= s@);
}

impl Payload {
    /// Reads `POS/DATA`.
    pub fn from_str(s: &[u8]) -> (r: Result<Payload, ()>)
        ensures
            r matches Ok(p) ==> payload_of(s@) == Some(p@),
            r is Err ==> payload_of(s@) is None,
    {
        let n = s.len();
        match find_byte(s, 47) {
            Some(k) => {
                let head = &s[0..k];
                assert(head@ =~= s@.take(k as int));
                match parse_usize(head) {
                    Some(pos) => {
                        let tail = &s[k + 1..n];
                        assert(tail@ =~= s@.skip(k + 1));
                        Ok(Payload { pos, data: unescape_data(tail) })
                    },
                    None => Err(()),
                }
            },
            None => Err(()),
        }
    }

    /// Writes `POS/DATA`.
    pub fn to_string(&self) -> (r: Vec<u8>)
        ensures
            r@ == payload_bytes(self@),
    {
        let mut r = format_usize(self.pos);
        r.push(47);
        let e = escape_data(self.data.as_slice());
        append_bytes(&mut r, e.as_slice());
        assert(r@ =~= payload_bytes(self@));
        r
    }
}

proof fn lemma_decimal_no_slash(n: nat)
    ensures
        !has_slash(decimal(n)),
    decreases n,
{
    if n >= 10 {
        lemma_decimal_no_slash(n / 10);
        let d = decimal(n);
        assert(!has_slash(d)) by {
            if has_slash(d) {
                let i = choose|i: int| 0 <= i < d.len() && d[i] == 47;
                if i < d.len() - 1 {
                    assert(decimal(n / 10)[i] == 47);
                }
            }
        }
    }
}

/// Reading the wire form of a payload whose data holds no `/` gives the payload
/// back.
pub proof fn lemma_payload_roundtrip(p: (usize, Seq<u8>))
    requires
        !has_slash(p.1),
    ensures
        payload_of(payload_bytes(p)) == Some(p),
{
    let d = decimal(p.0 as nat);
    let w = payload_bytes(p);
    lemma_decimal_no_slash(p.0 as nat);
    assert forall|j: int| 0 <= j < d.len() implies w[j] != 47 by {
        assert(w[j] == d[j]);
    }
    assert(w[d.len() as int] == 47);
    crate::text::lemma_first_index_of(w, 47, d.len() as int);
    assert(w.take(d.len() as int) =~= d);
    assert(w.skip(d.len() as int + 1) =~= escaped(p.1));
    lemma_parse_decimal(p.0);
    lemma_unescape_escape(p.1);
}


/// What a message says, its payload taken by its contents.
pub ghost enum MessageDataView {
    Connect,
    Data(usize, Seq<u8>),
    Ack(usize),
    Close,
}

#[derive(Debug)]
pub enum MessageData {
    Connect,
    Data(Payload),
    Ack(usize),
    Close,
}

impl View for MessageData {
    type V = MessageDataView;

    open spec fn view(&self) -> MessageDataView {
        match self {
            MessageData::Connect => MessageDataView::Connect,
            MessageData::Data(p) => MessageDataView::Data(p.pos, p.data@),
            MessageData::Ack(n) => MessageDataView::Ack(*n),
            MessageData::Close => MessageDataView::Close,
        }
    }
}

/// A message of the line reversal protocol.
#[derive(Debug)]
pub struct Message {
    pub session_id: usize,
    pub data: MessageData,
}

impl View for Message {
    type V = (usize, MessageDataView);

    open spec fn view(&self) -> (usize, MessageDataView) {
        (self.session_id, self.data@)
    }
}

pub open spec fn connect_word() -> Seq<u8> {
    seq![99u8, 111u8, 110u8, 110u8, 101u8, 99u8, 116u8]
}

pub open spec fn data_word() -> Seq<u8> {
    seq![100u8, 97u8, 116u8, 97u8]
}

pub open spec fn ack_word() -> Seq<u8> {
    seq![97u8, 99u8, 107u8]
}

pub open spec fn close_word() -> Seq<u8> {
    seq![99u8, 108u8, 111u8, 115u8, 101u8]
}

/// What precedes the first `/` of `s` (all of `s` where there is none).
pub open spec fn before_slash(s: Seq<u8>) -> Seq<u8> {
    match first_index_of(s, 47) {
        Some(i) => s.take(i),
        None => s,
    }
}

/// What follows the first `/` of `s`, if there is one.
pub open spec fn after_slash(s: Seq<u8>) -> Option<Seq<u8>> {
    match first_index_of(s, 47) {
        Some(i) => Some(s.skip(i + 1)),
        None => None,
    }
}

/// The body of a datagram: the UTF-8 text between a leading `/` and a final `/`
/// that may be followed by whitespace.
pub open spec fn message_body(buf: Seq<u8>) -> Option<Seq<u8>> {
    if valid_utf8(buf) && buf.len() > 0 && buf[0] == 47 {
        let t = buf.skip(1);
        let u = if t.len() > 0 && t.last() == 47 {
            t
        } else {
            t.take(trim_end_len_of(t) as int)
        };
        if u.len() > 0 && u.last() == 47 {
            Some(u.drop_last())
        } else {
            None
        }
    } else {
        None
    }
}

/// What the datagram `buf` reads as: `/connect/SESSION/`, `/data/SESSION/POS/DATA/`,
/// `/ack/SESSION/LENGTH/` or `/close/SESSION/` (fields after those read ignored).
pub open spec fn message_of(buf: Seq<u8>) -> Option<(usize, MessageDataView)> {
    match message_body(buf) {
        None => None,
        Some(m) => {
            let cmd = before_slash(m);
            match after_slash(m) {
                None => None,
                Some(rest) => match parsed_usize(before_slash(rest)) {
                    None => None,
                    Some(sid) => {
                        let third = after_slash(rest);
                        if cmd == connect_word() {
                            Some((sid, MessageDataView::Connect))
                        } else if cmd == data_word() {
                            match third {
                                Some(x) => match payload_of(x) {
                                    Some(p) => Some((sid, MessageDataView::Data(p.0, p.1))),
                                    None => None,
                                },
                                None => None,
                            }
                        } else if cmd == ack_word() {
                            match third {
                                Some(x) => match parsed_usize(x) {
                                    Some(n) => Some((sid, MessageDataView::Ack(n))),
                                    None => None,
                                },
                                None => None,
                            }
                        } else if cmd == close_word() {
                            Some((sid, MessageDataView::Close))
                        } else {
                            None
                        }
                    },
                },
            }
        },
    }
}

/// The wire form of a message.
pub open spec fn message_bytes(m: (usize, MessageDataView)) -> Seq<u8> {
    let sid = decimal(m.0 as nat);
    match m.1 {
        MessageDataView::Connect => slash() + connect_word() + slash() + sid + slash(),
        MessageDataView::Data(pos, data) => slash() + data_word() + slash() + sid + slash()
            + payload_bytes((pos, data)) + slash(),
        MessageDataView::Ack(n) => slash() + ack_word() + slash() + sid + slash() + decimal(
            n as nat,
        ) + slash(),
        MessageDataView::Close => slash() + close_word() + slash() + sid + slash(),
    }
}

/// A message whose data, where it carries some, is UTF-8 text (the text of a
/// line-reversal stream).
pub open spec fn message_wf(m: (usize, MessageDataView)) -> bool {
    data_wf(m.1)
}

pub open spec fn data_wf(d: MessageDataView) -> bool {
    d matches MessageDataView::Data(_, data) ==> valid_utf8(data)
}

impl Message {
    pub open spec fn wf(&self) -> bool {
        message_wf(self@)
    }
}

proof fn lemma_utf8_after_ascii(buf: Seq<u8>)
    requires
        valid_utf8(buf),
        buf.len() > 0,
        buf[0] < 0x80,
    ensures
        valid_utf8(buf.skip(1)),
{
    assert(vstd::utf8::pop_first_scalar(buf) =~= buf.skip(1));
}

/// Splits `s` at its first `/`: what precedes it, and what follows it if there is one.
fn split_first_slash(s: &[u8]) -> (r: (Vec<u8>, Option<Vec<u8>>))
    ensures
        r.0@ == before_slash(s@),
        r.1 matches Some(v) ==> after_slash(s@) == Some(v@),
        r.1 is None ==> after_slash(s@) is None,
{
    let n = s.len();
    match find_byte(s, 47) {
        Some(i) => {
            let head = copy_bytes(&s[0..i]);
            let tail = copy_bytes(&s[i + 1..n]);
            assert(head@ =~= s@.take(i as int));
            assert(tail@ =~= s@.skip(i + 1));
            (head, Some(tail))
        },
        None => (copy_bytes(s), None),
    }
}

impl Message {
    /// Reads a datagram.
    pub fn from_buf(buf: &[u8]) -> (r: Result<Message, ()>)
        ensures
            r matches Ok(m) ==> message_of(buf@) == Some(m@) && m.wf(),
            r is Err ==> message_of(buf@) is None,
    {
        let n = buf.len();
        if !is_utf8(buf) || n == 0 || buf[0] != 47 {
            return Err(());
        }
        let t = &buf[1..n];
        assert(t@ =~= buf@.skip(1));
        proof {
            lemma_utf8_after_ascii(buf@);
        }
        let tl = trim_end_len(t);
        proof {
            lemma_message_of_wf(buf@);
        }
        assert(t@.len() > 0 && t@.last() == 47 ==> t@.take(tl as int) =~= t@);
        if tl == 0 || t[tl - 1] != 47 {
            assert(t@.take(tl as int).len() == 0 || t@.take(tl as int).last() != 47);
            return Err(());
        }
        let m = &t[0..tl - 1];
        assert(m@ =~= t@.take(tl as int).drop_last());
        let (cmd, rest) = split_first_slash(m);
        let rest = match rest {
            Some(r) => r,
            None => {
                return Err(());
            },
        };
        let (sid_bytes, third) = split_first_slash(rest.as_slice());
        let session_id = match parse_usize(sid_bytes.as_slice()) {
            Some(v) => v,
            None => {
                return Err(());
            },
        };
        let connect: Vec<u8> = vec![99, 111, 110, 110, 101, 99, 116];
        let data: Vec<u8> = vec![100, 97, 116, 97];
        let ack: Vec<u8> = vec![97, 99, 107];
        let close: Vec<u8> = vec![99, 108, 111, 115, 101];
        assert(connect@ =~= connect_word());
        assert(data@ =~= data_word());
        assert(ack@ =~= ack_word());
        assert(close@ =~= close_word());
        if bytes_equal(cmd.as_slice(), connect.as_slice()) {
            Ok(Message { session_id, data: MessageData::Connect })
        } else if bytes_equal(cmd.as_slice(), data.as_slice()) {
            match third {
                Some(x) => match Payload::from_str(x.as_slice()) {
                    Ok(p) => Ok(Message { session_id, data: MessageData::Data(p) }),
                    Err(_) => Err(()),
                },
                None => Err(()),
            }
        } else if bytes_equal(cmd.as_slice(), ack.as_slice()) {
            match third {
                Some(x) => match parse_usize(x.as_slice()) {
                    Some(l) => Ok(Message { session_id, data: MessageData::Ack(l) }),
                    None => Err(()),
                },
                None => Err(()),
            }
        } else if bytes_equal(cmd.as_slice(), close.as_slice()) {
            Ok(Message { session_id, data: MessageData::Close })
        } else {
            Err(())
        }
    }

    /// Writes the message as a datagram.
    pub fn to_string(&self) -> (r: Vec<u8>)
        ensures
            r@ == message_bytes(self@),
    {
        let mut r: Vec<u8> = Vec::new();
        r.push(47);
        match &self.data {
            MessageData::Connect => {
                let w: Vec<u8> = vec![99, 111, 110, 110, 101, 99, 116];
                append_bytes(&mut r, w.as_slice());
            },
            MessageData::Data(_) => {
                let w: Vec<u8> = vec![100, 97, 116, 97];
                append_bytes(&mut r, w.as_slice());
            },
            MessageData::Ack(_) => {
                let w: Vec<u8> = vec![97, 99, 107];
                append_bytes(&mut r, w.as_slice());
            },
            MessageData::Close => {
                let w: Vec<u8> = vec![99, 108, 111, 115, 101];
                append_bytes(&mut r, w.as_slice());
            },
        }
        r.push(47);
        let sid = format_usize(self.session_id);
        append_bytes(&mut r, sid.as_slice());
        r.push(47);
        match &self.data {
            MessageData::Data(p) => {
                let pb = p.to_string();
                append_bytes(&mut r, pb.as_slice());
                r.push(47);
            },
            MessageData::Ack(l) => {
                let lb = format_usize(*l);
                append_bytes(&mut r, lb.as_slice());
                r.push(47);
            },
            _ => {},
        }
        assert(r@ =~= message_bytes(self@));
        r
    }
}


/// The first scalar of `t` is that of `s` where `t` begins with its bytes.
proof fn lemma_first_scalar_prefix(s: Seq<u8>, t: Seq<u8>)
    requires
        s.len() > 0,
        valid_first_scalar(s),
        t.len() >= length_of_first_scalar(s),
        forall|i: int| 0 <= i < length_of_first_scalar(s) ==> t[i] == s[i],
    ensures
        valid_first_scalar(t),
        length_of_first_scalar(t) == length_of_first_scalar(s),
{
    let w = length_of_first_scalar(s);
    assert(t[0] == s[0]);
    if w >= 2 {
        assert(t[1] == s[1]);
    }
    if w >= 3 {
        assert(t[2] == s[2]);
    }
    if w >= 4 {
        assert(t[3] == s[3]);
    }
}

/// Text made of ASCII bytes is UTF-8.
proof fn lemma_utf8_ascii(s: Seq<u8>)
    requires
        forall|i: int| 0 <= i < s.len() ==> s[i] < 0x80,
    ensures
        valid_utf8(s),
    decreases s.len(),
{
    if s.len() > 0 {
        let b = s[0];
        assert(b < 0x80);
        assert((b & 0x7f) as u32 == b as u32) by (bit_vector)
            requires
                b < 0x80,
        ;
        let r = s.drop_first();
        assert(pop_first_scalar(s) =~= r);
        assert forall|i: int| 0 <= i < r.len() implies r[i] < 0x80 by {
            assert(r[i] == s[i + 1]);
        }
        lemma_utf8_ascii(r);
    }
}

/// Two pieces of UTF-8 text joined are UTF-8.
proof fn lemma_utf8_concat(a: Seq<u8>, b: Seq<u8>)
    requires
        valid_utf8(a),
        valid_utf8(b),
    ensures
        valid_utf8(a + b),
    decreases a.len(),
{
    if a.len() == 0 {
        assert(a + b =~= b);
    } else {
        let w = length_of_first_scalar(a);
        lemma_first_scalar_prefix(a, a + b);
        assert(pop_first_scalar(a + b) =~= pop_first_scalar(a) + b);
        lemma_utf8_concat(pop_first_scalar(a), b);
    }
}

/// Doubling `\` takes no bytes of `s` before `k` apart where those hold none.
proof fn lemma_doubled_split(s: Seq<u8>, k: int)
    requires
        0 <= k <= s.len(),
        forall|i: int| 0 <= i < k ==> s[i] != 92,
    ensures
        doubled_backslashes(s) == s.take(k) + doubled_backslashes(s.skip(k)),
    decreases k,
{
    if k == 0 {
        assert(s.take(0) =~= Seq::<u8>::empty());
        assert(s.skip(0) =~= s);
        assert(Seq::<u8>::empty() + doubled_backslashes(s) =~= doubled_backslashes(s));
    } else {
        let r = s.drop_first();
        assert forall|i: int| 0 <= i < k - 1 implies r[i] != 92 by {
            assert(r[i] == s[i + 1]);
        }
        lemma_doubled_split(r, k - 1);
        assert(r.skip(k - 1) =~= s.skip(k));
        assert(seq![s[0]] + r.take(k - 1) =~= s.take(k));
    }
}

/// Doubling the `\` of UTF-8 text leaves UTF-8 text.
proof fn lemma_utf8_doubled(s: Seq<u8>)
    requires
        valid_utf8(s),
    ensures
        valid_utf8(doubled_backslashes(s)),
    decreases s.len(),
{
    if s.len() > 0 {
        let w = length_of_first_scalar(s);
        let rest = pop_first_scalar(s);
        assert(rest =~= s.skip(w));
        lemma_utf8_doubled(rest);
        if w == 1 {
            assert(s.drop_first() =~= rest);
            let head: Seq<u8> = if s[0] == 92 {
                seq![92u8, 92u8]
            } else {
                seq![s[0]]
            };
            assert(doubled_backslashes(s) == head + doubled_backslashes(rest));
            lemma_utf8_ascii(head);
            lemma_utf8_concat(head, doubled_backslashes(rest));
        } else {
            let head = s.take(w);
            assert(w <= s.len() && s[0] >= 0xc0);
            assert(w >= 2 ==> 0x80 <= s[1]);
            assert(w >= 3 ==> 0x80 <= s[2]);
            assert(w >= 4 ==> 0x80 <= s[3]);
            assert forall|i: int| 0 <= i < w implies s[i] != 92 by {}
            lemma_doubled_split(s, w);
            lemma_first_scalar_prefix(s, head);
            let e = pop_first_scalar(head);
            assert(e.len() == 0);
            assert(valid_utf8(e));
            assert(valid_utf8(head));
            lemma_utf8_concat(head, doubled_backslashes(rest));
        }
    }
}

/// UTF-8 text split at an ASCII byte leaves UTF-8 text on both sides.
proof fn lemma_utf8_split(s: Seq<u8>, k: int)
    requires
        valid_utf8(s),
        0 <= k < s.len(),
        s[k] < 0x80,
    ensures
        valid_utf8(s.take(k)),
        valid_utf8(s.skip(k + 1)),
    decreases s.len(),
{
    let w = length_of_first_scalar(s);
    let rest = pop_first_scalar(s);
    assert(rest =~= s.skip(w));
    if k == 0 {
        assert(s.take(0) =~= Seq::<u8>::empty());
        assert(w == 1);
        assert(s.skip(1) =~= rest);
        lemma_utf8_ascii(Seq::<u8>::empty());
    } else {
        assert(w <= s.len());
        assert(w >= 2 ==> 0x80 <= s[1]);
        assert(w >= 3 ==> 0x80 <= s[2]);
        assert(w >= 4 ==> 0x80 <= s[3]);
        assert(k >= w);
        let head = s.take(w);
        lemma_first_scalar_prefix(s, head);
        let e = pop_first_scalar(head);
        assert(e.len() == 0);
        assert(valid_utf8(e));
        assert(valid_utf8(head));
        if k == w {
            assert(s.take(k) =~= head);
            lemma_utf8_split(rest, 0);
            assert(s.skip(k + 1) =~= rest.skip(1));
        } else {
            lemma_utf8_split(rest, k - w);
            assert(s.take(k) =~= head + rest.take(k - w));
            lemma_utf8_concat(head, rest.take(k - w));
            assert(s.skip(k + 1) =~= rest.skip(k - w + 1));
        }
    }
}

/// Replacing nothing that starts before `k` leaves the first `k` bytes as they are.
proof fn lemma_replaced_split(s: Seq<u8>, pat: Seq<u8>, rep: Seq<u8>, k: int)
    requires
        pat.len() > 0,
        0 <= k <= s.len(),
        forall|i: int| 0 <= i < k ==> s[i] != pat[0],
    ensures
        replaced(s, pat, rep) == s.take(k) + replaced(s.skip(k), pat, rep),
    decreases k,
{
    if k == 0 {
        assert(s.take(0) =~= Seq::<u8>::empty());
        assert(s.skip(0) =~= s);
        assert(Seq::<u8>::empty() + replaced(s, pat, rep) =~= replaced(s, pat, rep));
    } else if s.len() < pat.len() {
        assert(s.skip(k).len() < pat.len());
        assert(s.take(k) + s.skip(k) =~= s);
    } else {
        assert(s.take(pat.len() as int)[0] == s[0]);
        let r = s.drop_first();
        assert forall|i: int| 0 <= i < k - 1 implies r[i] != pat[0] by {
            assert(r[i] == s[i + 1]);
        }
        lemma_replaced_split(r, pat, rep, k - 1);
        assert(r.skip(k - 1) =~= s.skip(k));
        assert(seq![s[0]] + r.take(k - 1) =~= s.take(k));
    }
}

/// Text that starts with `m` ASCII bytes is UTF-8 after them where it is UTF-8.
proof fn lemma_utf8_skip_ascii(s: Seq<u8>, m: int)
    requires
        valid_utf8(s),
        0 <= m <= s.len(),
        forall|i: int| 0 <= i < m ==> s[i] < 0x80,
    ensures
        valid_utf8(s.skip(m)),
    decreases m,
{
    if m == 0 {
        assert(s.skip(0) =~= s);
    } else {
        lemma_utf8_split(s, 0);
        let r = s.skip(1);
        assert forall|i: int| 0 <= i < m - 1 implies r[i] < 0x80 by {
            assert(r[i] == s[i + 1]);
        }
        lemma_utf8_skip_ascii(r, m - 1);
        assert(r.skip(m - 1) =~= s.skip(m));
    }
}

/// Replacing ASCII bytes by ASCII bytes leaves UTF-8 text UTF-8.
proof fn lemma_utf8_replaced(s: Seq<u8>, pat: Seq<u8>, rep: Seq<u8>)
    requires
        valid_utf8(s),
        pat.len() > 0,
        forall|i: int| 0 <= i < pat.len() ==> pat[i] < 0x80,
        forall|i: int| 0 <= i < rep.len() ==> rep[i] < 0x80,
    ensures
        valid_utf8(replaced(s, pat, rep)),
    decreases s.len(),
{
    if pat.len() <= s.len() {
        if s.take(pat.len() as int) == pat {
            assert forall|i: int| 0 <= i < pat.len() implies s[i] < 0x80 by {
                assert(s.take(pat.len() as int)[i] == s[i]);
            }
            lemma_utf8_skip_ascii(s, pat.len() as int);
            lemma_utf8_replaced(s.skip(pat.len() as int), pat, rep);
            lemma_utf8_ascii(rep);
            lemma_utf8_concat(rep, replaced(s.skip(pat.len() as int), pat, rep));
        } else if s[0] < 0x80 {
            lemma_utf8_split(s, 0);
            assert(s.skip(1) =~= s.drop_first());
            lemma_utf8_replaced(s.drop_first(), pat, rep);
            lemma_utf8_ascii(seq![s[0]]);
            lemma_utf8_concat(seq![s[0]], replaced(s.drop_first(), pat, rep));
        } else {
            let w = length_of_first_scalar(s);
            let rest = pop_first_scalar(s);
            assert(rest =~= s.skip(w));
            assert(w <= s.len() && s[0] >= 0xc0);
            assert(w >= 2 ==> 0x80 <= s[1]);
            assert(w >= 3 ==> 0x80 <= s[2]);
            assert(w >= 4 ==> 0x80 <= s[3]);
            assert forall|i: int| 0 <= i < w implies s[i] != pat[0] by {}
            lemma_replaced_split(s, pat, rep, w);
            let head = s.take(w);
            lemma_first_scalar_prefix(s, head);
            let e = pop_first_scalar(head);
            assert(e.len() == 0);
            assert(valid_utf8(e));
            assert(valid_utf8(head));
            lemma_utf8_replaced(rest, pat, rep);
            lemma_utf8_concat(head, replaced(rest, pat, rep));
        }
    }
}

proof fn lemma_first_index_of_found(s: Seq<u8>, c: u8)
    ensures
        first_index_of(s, c) matches Some(k) ==> 0 <= k < s.len() && s[k] == c,
    decreases s.len(),
{
    if s.len() > 0 {
        lemma_first_index_of_found(s.drop_first(), c);
    }
}

/// What follows the first `/` of UTF-8 text is UTF-8.
proof fn lemma_utf8_after_slash(s: Seq<u8>)
    requires
        valid_utf8(s),
    ensures
        after_slash(s) matches Some(r) ==> valid_utf8(r),
{
    lemma_first_index_of_found(s, 47);
    if let Some(k) = first_index_of(s, 47) {
        lemma_utf8_split(s, k);
    }
}

/// A message read from a datagram carries UTF-8 data (trimming leaving a prefix).
proof fn lemma_message_of_wf(buf: Seq<u8>)
    requires
        buf.len() > 0 ==> trim_end_len_of(buf.skip(1)) <= buf.skip(1).len(),
    ensures
        message_of(buf) matches Some(m) ==> message_wf(m),
{
    if let Some(body) = message_body(buf) {
        let t = buf.skip(1);
        lemma_utf8_split(buf, 0);
        let u = if t.len() > 0 && t.last() == 47 {
            t
        } else {
            t.take(trim_end_len_of(t) as int)
        };
        assert(u.len() <= t.len());
        assert(u[u.len() - 1] == t[u.len() - 1]);
        lemma_utf8_split(t, u.len() - 1);
        assert(body =~= t.take(u.len() - 1));
        lemma_utf8_after_slash(body);
        if let Some(rest) = after_slash(body) {
            lemma_utf8_after_slash(rest);
            if let Some(x) = after_slash(rest) {
                lemma_first_index_of_found(x, 47);
                if let Some(k) = first_index_of(x, 47) {
                    lemma_utf8_split(x, k);
                    let d = x.skip(k + 1);
                    lemma_utf8_replaced(d, seq![92u8, 47u8], slash());
                    lemma_utf8_replaced(
                        replaced(d, seq![92u8, 47u8], slash()),
                        seq![92u8, 92u8],
                        backslash(),
                    );
                }
            }
        }
    }
}

proof fn lemma_decimal_ascii(n: nat)
    ensures
        forall|i: int| 0 <= i < decimal(n).len() ==> 48 <= #[trigger] decimal(n)[i] <= 57,
    decreases n,
{
    if n >= 10 {
        lemma_decimal_ascii(n / 10);
        let d = decimal(n);
        assert forall|i: int| 0 <= i < d.len() implies 48 <= #[trigger] d[i] <= 57 by {
            if i < d.len() - 1 {
                assert(d[i] == decimal(n / 10)[i]);
            }
        }
    }
}

/// `before_slash` and `after_slash` split `a + "/" + b` at the `/` after `a`,
/// where `a` holds none.
proof fn lemma_split_at_slash(a: Seq<u8>, b: Seq<u8>)
    requires
        !has_slash(a),
    ensures
        before_slash(a + slash() + b) == a,
        after_slash(a + slash() + b) == Some(b),
{
    let w = a + slash() + b;
    assert forall|j: int| 0 <= j < a.len() implies w[j] != 47 by {
        assert(w[j] == a[j]);
    }
    assert(w[a.len() as int] == 47);
    crate::text::lemma_first_index_of(w, 47, a.len() as int);
    assert(w.take(a.len() as int) =~= a);
    assert(w.skip(a.len() as int + 1) =~= b);
}

/// `before_slash` and `after_slash` of text without `/`.
proof fn lemma_no_slash_split(a: Seq<u8>)
    requires
        !has_slash(a),
    ensures
        before_slash(a) == a,
        after_slash(a) is None,
{
    crate::text::lemma_first_index_of(a, 47, a.len() as int);
}

/// The wire form of a message is its ASCII head `/WORD/SESSION/` and what follows.
proof fn lemma_head_ascii(word: Seq<u8>, sid_n: usize)
    requires
        forall|i: int| 0 <= i < word.len() ==> word[i] < 0x80 && word[i] != 47,
    ensures
        valid_utf8(slash() + word + slash() + decimal(sid_n as nat) + slash()),
        !has_slash(word),
        !has_slash(decimal(sid_n as nat)),
        parsed_usize(decimal(sid_n as nat)) == Some(sid_n),
{
    let sid = decimal(sid_n as nat);
    lemma_decimal_no_slash(sid_n as nat);
    lemma_decimal_ascii(sid_n as nat);
    lemma_parse_decimal(sid_n);
    let h = slash() + word + slash() + sid + slash();
    let k = 2 + word.len();
    assert forall|i: int| 0 <= i < h.len() implies h[i] < 0x80 by {
        if 1 <= i < 1 + word.len() {
            assert(h[i] == word[i - 1]);
        } else if k <= i < k + sid.len() {
            assert(h[i] == sid[i - k]);
        }
    }
    lemma_utf8_ascii(h);
}

/// The decimal form of `n`, then `/`: ASCII without `/` but the last.
proof fn lemma_number_slash(n: usize)
    ensures
        valid_utf8(decimal(n as nat) + slash()),
        !has_slash(decimal(n as nat)),
        parsed_usize(decimal(n as nat)) == Some(n),
{
    let d = decimal(n as nat);
    lemma_decimal_ascii(n as nat);
    lemma_decimal_no_slash(n as nat);
    lemma_parse_decimal(n);
    let t = d + slash();
    assert forall|i: int| 0 <= i < t.len() implies t[i] < 0x80 by {
        if i < d.len() {
            assert(t[i] == d[i]);
        }
    }
    lemma_utf8_ascii(t);
}

/// The body of a datagram `/B/` that is UTF-8 is `B`.
proof fn lemma_body_of(b: Seq<u8>)
    requires
        valid_utf8(slash() + b + slash()),
    ensures
        message_body(slash() + b + slash()) == Some(b),
{
    let buf = slash() + b + slash();
    assert(buf.skip(1) =~= b + slash());
    assert((b + slash()).drop_last() =~= b);
}

/// The wire form of a message without a third field reads back as the message.
#[verifier::spinoff_prover]
proof fn lemma_roundtrip_two_fields(m: (usize, MessageDataView))
    requires
        m.1 is Connect || m.1 is Close,
    ensures
        message_of(message_bytes(m)) == Some(m),
{
    let word = if m.1 is Connect {
        connect_word()
    } else {
        close_word()
    };
    let sid = decimal(m.0 as nat);
    let b = word + slash() + sid;
    assert(message_body(message_bytes(m)) == Some(b)) by {
        lemma_head_ascii(word, m.0);
        assert(message_bytes(m) =~= slash() + b + slash());
        lemma_body_of(b);
    }
    assert(before_slash(b) == word && after_slash(b) == Some(sid)) by {
        lemma_head_ascii(word, m.0);
        lemma_split_at_slash(word, sid);
    }
    assert(before_slash(sid) == sid) by {
        lemma_head_ascii(word, m.0);
        lemma_no_slash_split(sid);
    }
    assert(parsed_usize(sid) == Some(m.0)) by {
        lemma_parse_decimal(m.0);
    }
    assert(close_word() != connect_word() && close_word() != data_word() && close_word()
        != ack_word());
}

/// The wire form of an acknowledgement reads back as the message.
#[verifier::spinoff_prover]
proof fn lemma_roundtrip_ack(m: (usize, MessageDataView))
    requires
        m.1 is Ack,
    ensures
        message_of(message_bytes(m)) == Some(m),
{
    let n = m.1->Ack_0;
    let word = ack_word();
    let sid = decimal(m.0 as nat);
    let d = decimal(n as nat);
    let rest = sid + slash() + d;
    let b = word + slash() + rest;
    assert(message_body(message_bytes(m)) == Some(b)) by {
        lemma_head_ascii(word, m.0);
        lemma_number_slash(n);
        let head = slash() + word + slash() + sid + slash();
        lemma_utf8_concat(head, d + slash());
        assert(message_bytes(m) =~= head + (d + slash()));
        assert(message_bytes(m) =~= slash() + b + slash());
        lemma_body_of(b);
    }
    assert(before_slash(b) == word && after_slash(b) == Some(rest)) by {
        lemma_head_ascii(word, m.0);
        lemma_split_at_slash(word, rest);
    }
    assert(before_slash(rest) == sid && after_slash(rest) == Some(d)) by {
        lemma_head_ascii(word, m.0);
        lemma_split_at_slash(sid, d);
    }
    assert(parsed_usize(sid) == Some(m.0)) by {
        lemma_parse_decimal(m.0);
    }
    assert(parsed_usize(d) == Some(n)) by {
        lemma_parse_decimal(n);
    }
    assert(word != connect_word() && word != data_word());
}

/// The wire form of a data message is UTF-8, where its data is, and is
/// `/data/SESSION/POS/DATA/`.
#[verifier::spinoff_prover]
proof fn lemma_data_bytes(m: (usize, MessageDataView))
    requires
        m.1 matches MessageDataView::Data(_, data) && valid_utf8(data) && !has_slash(data),
    ensures
        valid_utf8(message_bytes(m)),
        message_bytes(m) == slash() + (data_word() + slash() + (decimal(m.0 as nat) + slash()
            + payload_bytes((m.1->Data_0, m.1->Data_1)))) + slash(),
{
    let pos = m.1->Data_0;
    let data = m.1->Data_1;
    let word = data_word();
    let sid = decimal(m.0 as nat);
    let pd = decimal(pos as nat);
    lemma_head_ascii(word, m.0);
    lemma_number_slash(pos);
    lemma_no_match_identity(data, slash(), seq![92u8, 47u8]);
    lemma_double_backslashes(data);
    assert(escaped(data) == doubled_backslashes(data));
    lemma_utf8_doubled(data);
    lemma_utf8_ascii(slash());
    let head = slash() + word + slash() + sid + slash();
    let pb = payload_bytes((pos, data));
    assert(pb =~= (pd + slash()) + escaped(data));
    lemma_utf8_concat(pd + slash(), escaped(data));
    lemma_utf8_concat(pb, slash());
    lemma_utf8_concat(head, pb + slash());
    assert(message_bytes(m) =~= head + (pb + slash()));
    assert(message_bytes(m) =~= slash() + (word + slash() + (sid + slash() + pb)) + slash());
}

/// The wire form of a data message reads back as the message, where its data is
/// UTF-8 text without `/`.
#[verifier::spinoff_prover]
proof fn lemma_roundtrip_data(m: (usize, MessageDataView))
    requires
        m.1 matches MessageDataView::Data(_, data) && valid_utf8(data) && !has_slash(data),
    ensures
        message_of(message_bytes(m)) == Some(m),
{
    let pos = m.1->Data_0;
    let data = m.1->Data_1;
    let word = data_word();
    let sid = decimal(m.0 as nat);
    let pd = decimal(pos as nat);
    let pb = payload_bytes((pos, data));
    let rest = sid + slash() + pb;
    let b = word + slash() + rest;
    assert(message_body(message_bytes(m)) == Some(b)) by {
        lemma_data_bytes(m);
        lemma_body_of(b);
    }
    assert(before_slash(b) == word && after_slash(b) == Some(rest)) by {
        lemma_head_ascii(word, m.0);
        lemma_split_at_slash(word, rest);
    }
    assert(before_slash(rest) == sid && after_slash(rest) == Some(pb)) by {
        lemma_head_ascii(word, m.0);
        lemma_split_at_slash(sid, pb);
    }
    assert(parsed_usize(sid) == Some(m.0)) by {
        lemma_parse_decimal(m.0);
    }
    assert(payload_of(pb) == Some((pos, data))) by {
        lemma_payload_roundtrip((pos, data));
    }
    assert(word != connect_word());
}

/// A well-formed message read back from its wire form is the message, where the
/// data of a data message holds no `/`.
pub proof fn lemma_message_roundtrip(m: (usize, MessageDataView))
    requires
        message_wf(m),
        m.1 matches MessageDataView::Data(_, data) ==> !has_slash(data),
    ensures
        message_of(message_bytes(m)) == Some(m),
{
    match m.1 {
        MessageDataView::Connect => lemma_roundtrip_two_fields(m),
        MessageDataView::Close => lemma_roundtrip_two_fields(m),
        MessageDataView::Ack(_) => lemma_roundtrip_ack(m),
        MessageDataView::Data(_, _) => lemma_roundtrip_data(m),
    }
}

/// The reply to a line of text: its characters in reverse order.
pub fn reverse_chars(s: &str) -> (r: Vec<char>)
    ensures
        r@ == s@.reverse(),
{
    let cs = crate::unicode::chars_of(s);
    let n = cs.len();
    let mut r: Vec<char> = Vec::new();
    let mut i: usize = n;
    while i > 0
        invariant
            i <= n,
            n == cs@.len(),
            cs@ == s@,
            r@ == s@.subrange(i as int, n as int).reverse(),
        decreases i,
    {
        i = i - 1;
        r.push(cs[i]);
        assert(r@ =~= s@.subrange(i as int, n as int).reverse());
    }
    assert(s@.subrange(0, n as int) =~= s@);
    r
}

/// The state of one session of the line reversal protocol.
pub struct LrcpSession {
    pub id: usize,
    /// How many bytes of the client's stream were received in order.
    pub max_client_pos: usize,
    /// The largest acknowledgement from the client taken into account (stays 0).
    pub max_client_ack: usize,
    /// How many bytes the server has sent.
    pub max_server_pos: usize,
    /// The position last acknowledged to the client.
    pub last_sent_ack_n: usize,
    /// Every byte the server has sent.
    pub sent_bin: Vec<u8>,
    /// Every byte received from the client, in order.
    pub recv_bin: Vec<u8>,
}

impl LrcpSession {
    /// The positions are the lengths of the streams.
    pub open spec fn wf(&self) -> bool {
        &&& self.max_client_pos == self.recv_bin@.len()
        &&& self.max_server_pos == self.sent_bin@.len()
    }

    pub fn new(id: usize) -> (s: Self)
        ensures
            s.wf(),
            s.id == id,
            s.max_client_pos == 0,
            s.max_client_ack == 0,
            s.max_server_pos == 0,
            s.last_sent_ack_n == 0,
    {
        LrcpSession {
            id,
            max_server_pos: 0,
            max_client_ack: 0,
            max_client_pos: 0,
            last_sent_ack_n: 0,
            sent_bin: Vec::new(),
            recv_bin: Vec::new(),
        }
    }

    /// Whether the session can take in the message `d` (it would panic otherwise):
    /// data must not push the client's position past `usize::MAX`, and the data
    /// that an acknowledgement asks to send again must be UTF-8.
    pub open spec fn accepts(&self, d: MessageDataView) -> bool {
        match d {
            MessageDataView::Data(pos, data) => pos == self.max_client_pos ==> self.max_client_pos
                + data.len() <= usize::MAX,
            MessageDataView::Ack(n) => (self.max_client_ack < n && n != self.max_server_pos && n
                < self.max_server_pos) ==> valid_utf8(self.sent_bin@.skip(n as int)),
            _ => true,
        }
    }

    /// Takes in a message from the client. Returns the message to answer with, if
    /// any, and the data that the client sent in order, if this message brought
    /// some: data at the expected position is received and acknowledged; data
    /// elsewhere is acknowledged up to what was received; an acknowledgement short
    /// of what the server sent has the rest sent again; one beyond it closes the
    /// session; a close is answered with a close; a connect with an acknowledgement
    /// of 0.
    pub fn on_message(&mut self, data: MessageData) -> (r: (Option<MessageData>, Option<Vec<u8>>))
        requires
            old(self).wf(),
            old(self).accepts(data@),
        ensures
            final(self).wf(),
            final(self).id == old(self).id,
            final(self).max_client_ack == old(self).max_client_ack,
            final(self).max_server_pos == old(self).max_server_pos,
            final(self).sent_bin@ == old(self).sent_bin@,
            r.0 matches Some(m) ==> data_wf(m@),
            match data@ {
                MessageDataView::Data(pos, d) => if pos == old(self).max_client_pos {
                    &&& final(self).max_client_pos == old(self).max_client_pos + d.len()
                    &&& final(self).recv_bin@ == old(self).recv_bin@ + d
                    &&& final(self).last_sent_ack_n == final(self).max_client_pos
                    &&& r.1 matches Some(v) && v@ == d
                    &&& r.0 matches Some(m) && m@ == MessageDataView::Ack(
                        final(self).max_client_pos,
                    )
                } else {
                    &&& final(self).max_client_pos == old(self).max_client_pos
                    &&& final(self).recv_bin@ == old(self).recv_bin@
                    &&& final(self).last_sent_ack_n == old(self).last_sent_ack_n
                    &&& r.1 is None
                    &&& r.0 matches Some(m) && m@ == MessageDataView::Ack(
                        old(self).last_sent_ack_n,
                    )
                },
                _ => {
                    &&& final(self).max_client_pos == old(self).max_client_pos
                    &&& final(self).recv_bin@ == old(self).recv_bin@
                    &&& final(self).last_sent_ack_n == old(self).last_sent_ack_n
                    &&& r.1 is None
                    &&& match data@ {
                        MessageDataView::Connect => r.0 matches Some(m) && m@
                            == MessageDataView::Ack(0),
                        MessageDataView::Ack(n) => if n <= old(self).max_client_ack || n
                            == old(self).max_server_pos {
                            r.0 is None
                        } else if n > old(self).max_server_pos {
                            r.0 matches Some(m) && m@ == MessageDataView::Close
                        } else {
                            r.0 matches Some(m) && m@ == MessageDataView::Data(
                                n,
                                old(self).sent_bin@.skip(n as int),
                            )
                        },
                        _ => r.0 matches Some(m) && m@ == MessageDataView::Close,
                    }
                },
            },
    {
        match data {
            MessageData::Connect => (Some(MessageData::Ack(0)), None),
            MessageData::Data(p) => {
                if p.pos == self.max_client_pos {
                    self.max_client_pos = self.max_client_pos + p.data.len();
                    self.last_sent_ack_n = self.max_client_pos;
                    append_bytes(&mut self.recv_bin, p.data.as_slice());
                    (Some(MessageData::Ack(self.last_sent_ack_n)), Some(p.data))
                } else {
                    (Some(MessageData::Ack(self.last_sent_ack_n)), None)
                }
            },
            MessageData::Ack(n) => {
                if n <= self.max_client_ack {
                    (None, None)
                } else if n == self.max_server_pos {
                    (None, None)
                } else if n > self.max_server_pos {
                    (Some(MessageData::Close), None)
                } else {
                    let len = self.sent_bin.len();
                    let rest = copy_bytes(&self.sent_bin.as_slice()[n..len]);
                    assert(rest@ =~= self.sent_bin@.skip(n as int));
                    (Some(MessageData::Data(Payload { pos: n, data: rest })), None)
                }
            },
            MessageData::Close => (Some(MessageData::Close), None),
        }
    }

    /// The message that sends `message` to the client, at the server's position.
    pub fn write_message(&self, message: &[u8]) -> (m: Message)
        ensures
            m@ == (self.id, MessageDataView::Data(self.max_server_pos, message@)),
            valid_utf8(message@) ==> m.wf(),
    {
        Message {
            session_id: self.id,
            data: MessageData::Data(Payload { pos: self.max_server_pos, data: copy_bytes(message) }),
        }
    }

    /// Records that `message` was sent to the client.
    pub fn commit_write(&mut self, message: &[u8])
        requires
            old(self).wf(),
            old(self).max_server_pos + message@.len() <= usize::MAX,
        ensures
            final(self).wf(),
            final(self).sent_bin@ == old(self).sent_bin@ + message@,
            final(self).max_server_pos == old(self).max_server_pos + message@.len(),
            final(self).id == old(self).id,
            final(self).max_client_pos == old(self).max_client_pos,
            final(self).max_client_ack == old(self).max_client_ack,
            final(self).last_sent_ack_n == old(self).last_sent_ack_n,
            final(self).recv_bin@ == old(self).recv_bin@,
    {
        append_bytes(&mut self.sent_bin, message);
        self.max_server_pos = self.max_server_pos + message.len();
    }
}

/// What the listener does with a message, by its session.
#[derive(Debug, Clone, Copy, PartialEq, Eq, Structural)]
pub enum Admission {
    /// A connect for a new session: the session was registered; start it and pass
    /// the message on.
    New,
    /// The session is registered: pass the message on.
    Known,
    /// No such session: answer with a close.
    Unknown,
}

/// The sessions that the listener has registered.
pub struct SessionRegistry {
    pub ids: Vec<usize>,
}

impl SessionRegistry {
    pub fn new() -> (r: Self)
        ensures
            r.ids@ == Seq::<usize>::empty(),
    {
        SessionRegistry { ids: Vec::new() }
    }

    /// Decides what becomes of a message: a connect for an unknown session
    /// registers it.
    pub fn route(&mut self, msg: &Message) -> (a: Admission)
        ensures
            old(self).ids@.contains(msg.session_id) ==> a == Admission::Known && final(self).ids@
                == old(self).ids@,
            !old(self).ids@.contains(msg.session_id) && msg.data@ is Connect ==> a
                == Admission::New && final(self).ids@ == old(self).ids@.push(msg.session_id),
            !old(self).ids@.contains(msg.session_id) && !(msg.data@ is Connect) ==> a
                == Admission::Unknown && final(self).ids@ == old(self).ids@,
            old(self).ids@.no_duplicates() ==> final(self).ids@.no_duplicates(),
    {
        let mut i: usize = 0;
        while i < self.ids.len()
            invariant
                i <= self.ids@.len(),
                self.ids@ == old(self).ids@,
                forall|j: int| 0 <= j < i ==> self.ids@[j] != msg.session_id,
            decreases self.ids@.len() - i,
        {
            if self.ids[i] == msg.session_id {
                assert(self.ids@[i as int] == msg.session_id);
                return Admission::Known;
            }
            i = i + 1;
        }
        assert(!self.ids@.contains(msg.session_id));
        match msg.data {
            MessageData::Connect => {
                self.ids.push(msg.session_id);
                Admission::New
            },
            _ => Admission::Unknown,
        }
    }
}

} // verus!
