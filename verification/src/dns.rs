//! Answering address queries over DNS.
use vstd::prelude::*;
use vstd::utf8::*;

use crate::binary64::Double;
use crate::control::{locate_key, ControlConfig, LocateResponse};
use crate::steering::{chosen, views, NodeSnapshot, NodeView};
use crate::text::{
    chars_of, decimal_text, digit, law_parts_make_up_the_string, law_parts_on_both_sides,
    lemma_parts_append, lemma_parts_nonempty, lemma_parts_plain, parts, put_together, split,
    strings,
};

verus! {

// ---------------------------------------------------------------------------
// Names
// ---------------------------------------------------------------------------
/// The text of some bytes, in which what is no UTF-8 is replaced.
pub uninterp spec fn lossy_text(bytes: Seq<u8>) -> Seq<char>;

/// `String::from_utf8_lossy`: the text of some bytes; where they are UTF-8 it is what they encode.
#[verifier::external_body]
fn text_from(bytes: &[u8]) -> (r: String)
    ensures
        r@ == lossy_text(bytes@),
        valid_utf8(bytes@) ==> r@ == decode_utf8(bytes@),
{
    String::from_utf8_lossy(bytes).into_owned()
}

/// The name that stands at a place of a message: its labels, and where it ends. Each label has
/// its length before it, and a zero follows the last one. There is no name where the message ends
/// too early or a length is one that stands for something else.
pub open spec fn labels_at(msg: Seq<u8>, i: int) -> Option<(Seq<Seq<u8>>, int)>
    decreases msg.len() - i,
{
    if i < 0 || i >= msg.len() {
        None
    } else if msg[i] == 0 {
        Some((Seq::empty(), i + 1))
    } else if msg[i] >= 192 || i + 1 + msg[i] > msg.len() {
        None
    } else {
        match labels_at(msg, i + 1 + msg[i]) {
            Some((rest, end)) => Some(
                (seq![msg.subrange(i + 1, i + 1 + msg[i])] + rest, end),
            ),
            None => None,
        }
    }
}

/// Some texts with a dot between every two.
pub open spec fn dotted(texts: Seq<Seq<char>>) -> Seq<char>
    decreases texts.len(),
{
    if texts.len() == 0 {
        Seq::empty()
    } else if texts.len() == 1 {
        texts[0]
    } else {
        dotted(texts.drop_last()) + "."@ + texts.last()
    }
}

/// The texts of some labels, in which what is no UTF-8 is replaced.
pub open spec fn lossy_texts(labels: Seq<Seq<u8>>) -> Seq<Seq<char>> {
    labels.map_values(|l: Seq<u8>| lossy_text(l))
}

/// The texts that some labels encode.
pub open spec fn decoded(labels: Seq<Seq<u8>>) -> Seq<Seq<char>> {
    labels.map_values(|l: Seq<u8>| decode_utf8(l))
}

/// Whether some labels are UTF-8.
pub open spec fn all_utf8(labels: Seq<Seq<u8>>) -> bool {
    forall|i: int| 0 <= i < labels.len() ==> valid_utf8(#[trigger] labels[i])
}

/// The name that stands at a place of a message, with a dot between every two labels, and where it
/// ends.
pub fn parse_qname(msg: &[u8], start: usize) -> (r: Option<(String, usize)>)
    ensures
        match labels_at(msg@, start as int) {
            Some((labels, end)) => r matches Some((name, at)) && name@ == dotted(
                lossy_texts(labels),
            ) && (all_utf8(labels) ==> name@ == dotted(decoded(labels))) && at == end,
            None => r is None,
        },
{
    let mut name = String::new();
    let mut first: bool = true;
    let mut i: usize = start;
    let ghost mut labels: Seq<Seq<u8>> = Seq::empty();
    proof {
        assert(lossy_texts(labels) == Seq::<Seq<char>>::empty());
        if let Some((rest, end)) = labels_at(msg@, start as int) {
            assert(labels + rest == rest);
        }
    }
    loop
        invariant
            first == (labels.len() == 0),
            name@ == dotted(lossy_texts(labels)),
            forall|j: int|
                0 <= j < labels.len() && valid_utf8(#[trigger] labels[j]) ==> lossy_text(labels[j])
                    == decode_utf8(labels[j]),
            match labels_at(msg@, i as int) {
                Some((rest, end)) => labels_at(msg@, start as int) == Some((labels + rest, end)),
                None => labels_at(msg@, start as int) is None,
            },
        decreases msg@.len() - i,
    {
        if i >= msg.len() {
            return None;
        }
        let len: usize = msg[i] as usize;
        if len == 0 {
            proof {
                assert(labels + Seq::<Seq<u8>>::empty() == labels);
                if all_utf8(labels) {
                    assert(lossy_texts(labels) == decoded(labels));
                }
            }
            return Some((name, i + 1));
        }
        if len >= 192 || msg.len() - i - 1 < len {
            return None;
        }
        let label = vstd::slice::slice_subrange(msg, i + 1, i + 1 + len);
        let ghost next = labels.push(label@);
        proof {
            assert(label@ == msg@.subrange(i + 1, i + 1 + len));
            if let Some((rest, end)) = labels_at(msg@, i + 1 + len) {
                assert(labels + (seq![label@] + rest) == next + rest);
            }
            assert(lossy_texts(next).drop_last() == lossy_texts(labels));
        }
        if !first {
            name.append(".");
        }
        let text = text_from(label);
        name.append(text.as_str());
        first = false;
        proof {
            if labels.len() == 0 {
                assert(name@ == lossy_text(label@));
            }
            assert(lossy_texts(next).last() == lossy_text(label@));
            assert(name@ == dotted(lossy_texts(next)));
            labels = next;
        }
        i = i + 1 + len;
    }
}

// ---------------------------------------------------------------------------
// Addresses
// ---------------------------------------------------------------------------
/// Whether a character is a decimal digit.
pub open spec fn is_digit(c: char) -> bool {
    '0' <= c && c <= '9'
}

/// The number that some decimal digits write.
pub open spec fn decimal(s: Seq<char>) -> nat
    decreases s.len(),
{
    if s.len() == 0 {
        0
    } else {
        decimal(s.drop_last()) * 10 + (s.last() as nat - '0' as nat) as nat
    }
}

/// The number up to 255 that a text writes in one to three decimal digits, without zeros before
/// it.
pub open spec fn octet(s: Seq<char>) -> Option<u8> {
    if 1 <= s.len() <= 3 && (forall|i: int| 0 <= i < s.len() ==> is_digit(#[trigger] s[i])) && (
    s.len() == 1 || s[0] != '0') && decimal(s) <= 255 {
        Some(decimal(s) as u8)
    } else {
        None
    }
}

/// The address that a text writes as four numbers with dots between them.
pub open spec fn ipv4(s: Seq<char>) -> Option<[u8; 4]> {
    let p = parts(s, '.');
    if p.len() == 4 && octet(p[0]) is Some && octet(p[1]) is Some && octet(p[2]) is Some && octet(
        p[3],
    ) is Some {
        Some([octet(p[0])->0, octet(p[1])->0, octet(p[2])->0, octet(p[3])->0])
    } else {
        None
    }
}

/// The address of a host, which stands before the first colon.
pub open spec fn ipv4_of(addr: Seq<char>) -> Option<[u8; 4]> {
    ipv4(parts(addr, ':')[0])
}

fn parse_octet(s: &str) -> (r: Option<u8>)
    ensures
        r == octet(s@),
{
    let chars = chars_of(s);
    if chars.len() < 1 || chars.len() > 3 || (chars.len() > 1 && chars[0] == '0') {
        return None;
    }
    let mut v: u32 = 0;
    let mut i: usize = 0;
    while i < chars.len()
        invariant
            chars@ == s@,
            1 <= s@.len() <= 3,
            i <= s@.len(),
            v == decimal(s@.take(i as int)),
            i == 0 ==> v == 0,
            i == 1 ==> v <= 9,
            i == 2 ==> v <= 99,
            i == 3 ==> v <= 999,
            forall|j: int| 0 <= j < i ==> is_digit(#[trigger] s@[j]),
        decreases s@.len() - i,
    {
        let c = chars[i];
        if c < '0' || c > '9' {
            assert(!is_digit(s@[i as int]));
            return None;
        }
        assert(s@.take(i + 1).drop_last() == s@.take(i as int));
        assert(s@.take(i + 1).last() == c);
        v = v * 10 + (c as u32 - '0' as u32);
        i += 1;
    }
    assert(s@.take(i as int) == s@);
    if v <= 255 {
        Some(v as u8)
    } else {
        None
    }
}

/// The address of a host, which stands before the first colon.
pub fn parse_ipv4(addr: &str) -> (r: Option<[u8; 4]>)
    ensures
        match ipv4_of(addr@) {
            Some(ip) => r matches Some(a) && a@ == ip@,
            None => r is None,
        },
{
    let hosts = split(addr, ':');
    proof {
        lemma_parts_nonempty(addr@, ':');
    }
    assert(strings(hosts@)[0] == hosts@[0]@);
    let p = split(hosts[0].as_str(), '.');
    assert(strings(p@).len() == p@.len());
    if p.len() != 4 {
        return None;
    }
    assert(forall|i: int| 0 <= i < 4 ==> #[trigger] strings(p@)[i] == p@[i]@);
    match (
        parse_octet(p[0].as_str()),
        parse_octet(p[1].as_str()),
        parse_octet(p[2].as_str()),
        parse_octet(p[3].as_str()),
    ) {
        (Some(a), Some(b), Some(c), Some(d)) => Some([a, b, c, d]),
        _ => None,
    }
}

// ---------------------------------------------------------------------------
// Replies
// ---------------------------------------------------------------------------
/// Where the type of the question of a query stands: behind its name, with the class of the
/// question behind it. The question follows a header of twelve bytes.
pub open spec fn question_type_at(query: Seq<u8>) -> Option<int> {
    if query.len() < 12 {
        None
    } else {
        match labels_at(query, 12) {
            Some((_, at)) => if at + 4 <= query.len() {
                Some(at)
            } else {
                None
            },
            None => None,
        }
    }
}

/// Whether a query asks for an address.
pub open spec fn asks_for_address(query: Seq<u8>, at: int) -> bool {
    query[at] == 0 && query[at + 1] == 1
}

/// An answer of one address, for five seconds, to the name of the question.
pub open spec fn answer_record(ip: Seq<u8>) -> Seq<u8> {
    seq![0xC0u8, 0x0C, 0, 1, 0, 1, 0, 0, 0, 5, 0, 4] + ip
}

/// The address that is answered for a host: its own, or the one that stands for none.
pub open spec fn answered_ip(addr: Seq<char>) -> Seq<u8> {
    match ipv4_of(addr) {
        Some(ip) => ip@,
        None => seq![0u8, 0, 0, 0],
    }
}

/// The header of the reply to a query: its identifier, the marks of a reply of a server that
/// recurses, a failure where there is no host, as many questions as were asked, and one answer or
/// none.
pub open spec fn reply_header(query: Seq<u8>, found: bool, answers: u8) -> Seq<u8> {
    let rcode: u8 = if found {
        0
    } else {
        2
    };
    query.subrange(0, 2) + seq![
        0x80u8 | (query[2] & 0x01u8),
        0x80u8 | rcode,
    ] + query.subrange(4, 6) + seq![0u8, answers, 0, 0, 0, 0]
}

/// The reply to a query whose question has its type at a place, given the host that should be
/// asked, if there is one: the header, the question as it was asked, and, to a question for an
/// address, the address of the host.
pub open spec fn reply(query: Seq<u8>, at: int, host: Option<Seq<char>>) -> Seq<u8> {
    let answers = host is Some && asks_for_address(query, at);
    let head = reply_header(query, host is Some, if answers {
        1
    } else {
        0
    });
    head + query.subrange(12, at + 4) + if answers {
        answer_record(answered_ip(host->0))
    } else {
        Seq::empty()
    }
}

/// The host that was located, if one was.
pub open spec fn located_host(chosen: Option<&LocateResponse>) -> Option<Seq<char>> {
    match chosen {
        Some(l) => Some(l.addr@),
        None => None,
    }
}

/// The reply to a query, given where its host was located. What is no query with a question gets
/// no reply.
pub fn answer_query(query: &[u8], chosen: Option<&LocateResponse>) -> (r: Option<Vec<u8>>)
    ensures
        match question_type_at(query@) {
            Some(at) => r matches Some(out) && out@ == reply(query@, at, located_host(chosen)),
            None => r is None,
        },
{
    if query.len() < 12 {
        return None;
    }
    let at: usize = match parse_qname(query, 12) {
        Some((_name, at)) => at,
        None => return None,
    };
    proof {
        lemma_labels_end(query@, 12);
    }
    if query.len() - at < 4 {
        return None;
    }
    let is_address: bool = query[at] == 0 && query[at + 1] == 1;
    let ip: [u8; 4] = match chosen {
        Some(c) => match parse_ipv4(c.addr.as_str()) {
            Some(ip) => ip,
            None => [0, 0, 0, 0],
        },
        None => [0, 0, 0, 0],
    };
    let answers: bool = chosen.is_some() && is_address;
    let rcode: u8 = if chosen.is_none() {
        2
    } else {
        0
    };
    let mut out: Vec<u8> = Vec::new();
    out.push(query[0]);
    out.push(query[1]);
    out.push(0x80 | (query[2] & 0x01));
    out.push(0x80 | rcode);
    out.push(query[4]);
    out.push(query[5]);
    out.push(0);
    out.push(if answers {
        1
    } else {
        0
    });
    out.push(0);
    out.push(0);
    out.push(0);
    out.push(0);
    let ghost head = out@;
    assert(head == reply_header(query@, chosen is Some, if answers {
        1
    } else {
        0
    }));
    out.extend_from_slice(vstd::slice::slice_subrange(query, 12, at + 4));
    assert(out@ == head + query@.subrange(12, at + 4));
    let ghost asked = out@;
    if answers {
        let record: [u8; 12] = [0xC0, 0x0C, 0, 1, 0, 1, 0, 0, 0, 5, 0, 4];
        out.extend_from_slice(record.as_slice());
        out.extend_from_slice(ip.as_slice());
        proof {
            assert(ip@ == answered_ip(chosen->0.addr@));
            assert(out@ == asked + answer_record(ip@));
        }
    } else {
        assert(out@ == asked + Seq::<u8>::empty());
    }
    Some(out)
}

/// The edge that stands for the whole network: the one for its host name.
pub open spec fn network_host(
    nodes: Seq<NodeView>,
    scores: Seq<Double>,
    config: ControlConfig,
) -> Option<Seq<char>> {
    match chosen("cdn.local"@, nodes, scores, config.replica_factor as int) {
        Some(i) => Some(nodes[i].addr),
        None => None,
    }
}

/// The reply to a query, given the edges and their scores: whatever name it asks for, the answer
/// is the edge that is chosen for the host name of the network, as any object has its edge chosen.
pub fn build_dns_reply(
    query: &[u8],
    config: &ControlConfig,
    nodes: &[NodeSnapshot],
    scores: &[Double],
) -> (r: Option<Vec<u8>>)
    requires
        nodes@.len() == scores@.len(),
    ensures
        match question_type_at(query@) {
            Some(at) => r matches Some(out) && out@ == reply(
                query@,
                at,
                network_host(views(nodes@), scores@, *config),
            ),
            None => r is None,
        },
{
    let found = locate_key(config, "cdn.local", nodes, scores);
    answer_query(query, found.as_ref())
}

/// A name ends within its message.
proof fn lemma_labels_end(msg: Seq<u8>, i: int)
    requires
        0 <= i,
    ensures
        labels_at(msg, i) matches Some((_, end)) ==> i < end <= msg.len(),
    decreases msg.len() - i,
{
    if i < msg.len() && msg[i] != 0 && msg[i] < 192 && i + 1 + msg[i] <= msg.len() {
        lemma_labels_end(msg, i + 1 + msg[i]);
    }
}

// ---------------------------------------------------------------------------
// Laws
// ---------------------------------------------------------------------------
/// A reply belongs to its query: it carries the identifier and the question of the query, is
/// marked as a reply, and has an answer exactly if there is a host and an address was asked for.
pub proof fn law_reply_belongs_to_query(query: Seq<u8>, at: int, host: Option<Seq<char>>)
    requires
        question_type_at(query) == Some(at),
    ensures
        ({
            let r = reply(query, at, host);
            let question = query.subrange(12, at + 4);
            let answers = host is Some && asks_for_address(query, at);
            &&& r.subrange(0, 2) == query.subrange(0, 2)
            &&& r[2] & 0x80 == 0x80
            &&& r.subrange(4, 6) == query.subrange(4, 6)
            &&& r[6] == 0 && r[7] == (if answers {
                1u8
            } else {
                0
            })
            &&& r.subrange(12, at + 4) == question
            &&& r.len() == at + 4 + (if answers {
                16int
            } else {
                0
            })
            &&& answers ==> r.subrange(at + 4 + 12, at + 4 + 16) == answered_ip(host->0)
        }),
{
    lemma_labels_end(query, 12);
    let r = reply(query, at, host);
    let b = query[2];
    assert((0x80u8 | (b & 0x01u8)) & 0x80 == 0x80) by (bit_vector);
    let question = query.subrange(12, at + 4);
    assert(r.subrange(0, 2) == query.subrange(0, 2));
    assert(r.subrange(4, 6) == query.subrange(4, 6));
    assert(r.subrange(12, at + 4) == question);
    if host is Some && asks_for_address(query, at) {
        let ip = answered_ip(host->0);
        assert(ip.len() == 4);
        assert(r.subrange(at + 4 + 12, at + 4 + 16) == ip);
    }
}

/// Some labels as they stand in a message: each with its length before it.
pub open spec fn encoded(labels: Seq<Seq<u8>>) -> Seq<u8>
    decreases labels.len(),
{
    if labels.len() == 0 {
        Seq::empty()
    } else {
        seq![labels.first().len() as u8] + labels.first() + encoded(labels.drop_first())
    }
}

/// A name that was written is read back, label for label, and so is where it ends, whatever stands
/// before it and behind it.
pub proof fn law_written_labels_are_read_back(
    before: Seq<u8>,
    labels: Seq<Seq<u8>>,
    after: Seq<u8>,
)
    requires
        forall|i: int| 0 <= i < labels.len() ==> 1 <= (#[trigger] labels[i]).len() <= 191,
    ensures
        labels_at(before + encoded(labels) + seq![0u8] + after, before.len() as int) == Some(
            (labels, before.len() + encoded(labels).len() + 1int),
        ),
    decreases labels.len(),
{
    let msg = before + encoded(labels) + seq![0u8] + after;
    if labels.len() == 0 {
        assert(msg[before.len() as int] == 0);
        assert(labels == Seq::<Seq<u8>>::empty());
    } else {
        let label = labels.first();
        let rest = labels.drop_first();
        let start = before + (seq![label.len() as u8] + label);
        assert(labels[0] == label);
        assert forall|i: int| 0 <= i < rest.len() implies 1 <= (#[trigger] rest[i]).len()
            <= 191 by {
            assert(rest[i] == labels[i + 1]);
        }
        law_written_labels_are_read_back(start, rest, after);
        let i = before.len() as int;
        assert(msg == start + encoded(rest) + seq![0u8] + after);
        assert(msg[i] == label.len());
        assert(msg.subrange(i + 1, i + 1 + label.len()) == label);
        assert(seq![label] + rest == labels);
    }
}

/// The labels that some texts are written as.
pub open spec fn utf8_labels(texts: Seq<Seq<char>>) -> Seq<Seq<u8>> {
    texts.map_values(|t: Seq<char>| encode_utf8(t))
}

/// A name of some texts that was written is read back as these texts with dots between them.
pub proof fn law_written_name_is_read_back(
    before: Seq<u8>,
    texts: Seq<Seq<char>>,
    after: Seq<u8>,
)
    requires
        forall|i: int|
            0 <= i < texts.len() ==> 1 <= encode_utf8(#[trigger] texts[i]).len() <= 191,
    ensures
        ({
            let labels = utf8_labels(texts);
            let msg = before + encoded(labels) + seq![0u8] + after;
            &&& labels_at(msg, before.len() as int) == Some(
                (labels, before.len() + encoded(labels).len() + 1int),
            )
            &&& all_utf8(labels)
            &&& dotted(decoded(labels)) == dotted(texts)
        }),
{
    let labels = utf8_labels(texts);
    assert forall|i: int| 0 <= i < labels.len() implies 1 <= (#[trigger] labels[i]).len() <= 191
        && valid_utf8(labels[i]) && decode_utf8(labels[i]) == texts[i] by {
        assert(labels[i] == encode_utf8(texts[i]));
        encode_utf8_valid_utf8(texts[i]);
        encode_utf8_decode_utf8(texts[i]);
    }
    law_written_labels_are_read_back(before, labels, after);
    assert(decoded(labels) == texts);
}

/// A query is answered with success where there is a host and with a server failure where there is
/// none, whatever its own result code is.
pub proof fn law_no_host_is_a_failure(query: Seq<u8>, at: int, host: Option<Seq<char>>)
    requires
        question_type_at(query) == Some(at),
    ensures
        reply(query, at, host)[3] & 0x0f == (if host is Some {
            0u8
        } else {
            2u8
        }),
{
    lemma_labels_end(query, 12);
    assert((0x80u8 | 0u8) & 0x0f == 0) by (bit_vector);
    assert((0x80u8 | 2u8) & 0x0f == 2) by (bit_vector);
}

/// A number up to 255 in decimal digits.
pub open spec fn written_octet(n: u8) -> Seq<char> {
    decimal_text(n as nat)
}

/// An address as four numbers with dots between them.
pub open spec fn written_ipv4(a: u8, b: u8, c: u8, d: u8) -> Seq<char> {
    (((written_octet(a).push('.') + written_octet(b)).push('.') + written_octet(c)).push('.')
        + written_octet(d))
}

proof fn lemma_written_octet(n: u8)
    ensures
        octet(written_octet(n)) == Some(n),
        !written_octet(n).contains('.'),
        !written_octet(n).contains(':'),
{
    let s = written_octet(n);
    reveal_with_fuel(decimal_text, 3);
    assert(s == if n < 10 {
        seq![digit(n)]
    } else if n < 100 {
        seq![digit(n / 10), digit(n % 10)]
    } else {
        seq![digit(n / 100), digit(n / 10 % 10), digit(n % 10)]
    });
    assert(forall|i: int| 0 <= i < s.len() ==> is_digit(#[trigger] s[i]));
    reveal_with_fuel(decimal, 4);
    assert(decimal(s) == n) by {
        if n < 10 {
            assert(s.drop_last() == Seq::<char>::empty());
        } else if n < 100 {
            assert(s.drop_last() == seq![digit(n / 10)]);
            assert(s.drop_last().drop_last() == Seq::<char>::empty());
        } else {
            assert(s.drop_last() == seq![digit(n / 100), digit(n / 10 % 10)]);
            assert(s.drop_last().drop_last() == seq![digit(n / 100)]);
            assert(s.drop_last().drop_last().drop_last() == Seq::<char>::empty());
        }
    }
}

/// An address that was written with dots, with a port behind it, is read back.
pub proof fn law_written_address_is_read_back(a: u8, b: u8, c: u8, d: u8, port: Seq<char>)
    requires
        !port.contains(':'),
    ensures
        ipv4_of(written_ipv4(a, b, c, d).push(':') + port) == Some([a, b, c, d]),
        ipv4_of(written_ipv4(a, b, c, d)) == Some([a, b, c, d]),
{
    lemma_written_octet(a);
    lemma_written_octet(b);
    lemma_written_octet(c);
    lemma_written_octet(d);
    let ab = written_octet(a).push('.') + written_octet(b);
    let abc = ab.push('.') + written_octet(c);
    let host = written_ipv4(a, b, c, d);
    lemma_parts_plain(written_octet(a), '.');
    lemma_parts_append(written_octet(a), written_octet(b), '.');
    lemma_parts_append(ab, written_octet(c), '.');
    lemma_parts_append(abc, written_octet(d), '.');
    assert(!host.contains(':')) by {
        assert forall|i: int| 0 <= i < host.len() implies host[i] != ':' by {
            let p = written_octet(a).len() as int;
            let q = ab.len() as int;
            let r = abc.len() as int;
            if i < p {
                assert(host[i] == written_octet(a)[i]);
            } else if p < i < q {
                assert(host[i] == written_octet(b)[i - p - 1]);
            } else if q < i < r {
                assert(host[i] == written_octet(c)[i - q - 1]);
            } else if r < i {
                assert(host[i] == written_octet(d)[i - r - 1]);
            }
        }
    }
    lemma_parts_plain(host, ':');
    lemma_parts_append(host, port, ':');
}

/// How a name is written: label by label, each with its length before it.
pub proof fn law_how_a_name_is_written(a: Seq<Seq<u8>>, b: Seq<Seq<u8>>, label: Seq<u8>)
    ensures
        encoded(Seq::<Seq<u8>>::empty()) == Seq::<u8>::empty(),
        encoded(seq![label]) == seq![label.len() as u8] + label,
        encoded(a + b) == encoded(a) + encoded(b),
    decreases a.len(),
{
    assert(seq![label].drop_first() == Seq::<Seq<u8>>::empty());
    assert(encoded(Seq::<Seq<u8>>::empty()) == Seq::<u8>::empty());
    assert(seq![label.len() as u8] + label + Seq::<u8>::empty() == seq![label.len() as u8]
        + label);
    if a.len() == 0 {
        assert(a + b == b);
        assert(encoded(a) + encoded(b) == encoded(b));
    } else {
        let first = seq![a.first().len() as u8] + a.first();
        law_how_a_name_is_written(a.drop_first(), b, label);
        assert((a + b).first() == a.first());
        assert((a + b).drop_first() == a.drop_first() + b);
        assert(first + (encoded(a.drop_first()) + encoded(b)) == first + encoded(a.drop_first())
            + encoded(b));
    }
}

/// A name is read only where one was written: its labels stand there one behind the other, each
/// with its length from 1 to 191 before it, with a zero behind the last, and there it ends.
pub proof fn law_read_name_was_written(msg: Seq<u8>, i: int)
    ensures
        labels_at(msg, i) matches Some((labels, end)) ==> {
            &&& 0 <= i < end <= msg.len()
            &&& msg.subrange(i, end) == encoded(labels) + seq![0u8]
            &&& forall|k: int| 0 <= k < labels.len() ==> 1 <= (#[trigger] labels[k]).len() <= 191
        },
    decreases msg.len() - i,
{
    if let Some((labels, end)) = labels_at(msg, i) {
        if msg[i] == 0 {
            assert(msg.subrange(i, end) == encoded(labels) + seq![0u8]);
        } else {
            let next = i + 1 + msg[i];
            law_read_name_was_written(msg, next);
            let (rest, _) = labels_at(msg, next)->0;
            let label = msg.subrange(i + 1, next);
            assert(labels.drop_first() == rest);
            assert(labels.first() == label);
            assert(label.len() == msg[i]);
            assert(msg.subrange(i, end) == seq![msg[i]] + label + msg.subrange(next, end));
            assert(msg.subrange(i, end) == encoded(labels) + seq![0u8]);
            assert forall|k: int| 0 <= k < labels.len() implies 1 <= (#[trigger] labels[k]).len()
                <= 191 by {
                if k > 0 {
                    assert(labels[k] == rest[k - 1]);
                }
            }
        }
    }
}

/// Texts are put together with a dot between what stands before and what stands behind.
pub proof fn law_dots_stand_between(a: Seq<Seq<char>>, b: Seq<Seq<char>>, t: Seq<char>)
    ensures
        dotted(Seq::<Seq<char>>::empty()) == Seq::<char>::empty(),
        dotted(seq![t]) == t,
        a.len() > 0 && b.len() > 0 ==> dotted(a + b) == dotted(a) + seq!['.'] + dotted(b),
    decreases b.len(),
{
    reveal_strlit(".");
    assert("."@ == seq!['.']);
    if a.len() > 0 && b.len() > 0 {
        assert((a + b).last() == b.last());
        assert((a + b).drop_last() == a + b.drop_last());
        if b.len() == 1 {
            assert(a + b.drop_last() == a);
        } else {
            law_dots_stand_between(a, b.drop_last(), t);
            assert(dotted(a) + seq!['.'] + dotted(b.drop_last()) + "."@ + b.last() == dotted(a)
                + seq!['.'] + (dotted(b.drop_last()) + "."@ + b.last()));
        }
    }
}

/// The texts of labels, one for one; labels are UTF-8 exactly if each of them is.
pub proof fn law_texts_of_labels(labels: Seq<Seq<u8>>, i: int)
    requires
        0 <= i < labels.len(),
    ensures
        lossy_texts(labels).len() == labels.len(),
        lossy_texts(labels)[i] == lossy_text(labels[i]),
        decoded(labels).len() == labels.len(),
        decoded(labels)[i] == decode_utf8(labels[i]),
        all_utf8(labels) ==> valid_utf8(labels[i]),
        !all_utf8(labels) ==> exists|k: int|
            0 <= k < labels.len() && !valid_utf8(#[trigger] labels[k]),
{
}

/// Decimal digits write a number one by one: one more makes ten of it and the digit. A number that
/// was written is read back.
pub proof fn law_what_digits_write(s: Seq<char>, c: char, n: nat)
    requires
        '0' <= c && c <= '9',
    ensures
        decimal(Seq::<char>::empty()) == 0,
        decimal(s.push(c)) == decimal(s) * 10 + (c as int - '0' as int),
        decimal(decimal_text(n)) == n,
    decreases n,
{
    assert(s.push(c).drop_last() == s);
    let none = Seq::<char>::empty();
    assert(decimal(none) == 0);
    if n < 10 {
        assert(decimal_text(n).drop_last() == none);
    } else {
        law_what_digits_write(s, c, n / 10);
        assert(decimal_text(n).drop_last() == decimal_text(n / 10));
    }
}

/// What is read as a number was written as one.
proof fn lemma_read_octet(s: Seq<char>)
    ensures
        octet(s) matches Some(n) ==> s == written_octet(n),
{
    if let Some(n) = octet(s) {
        reveal_with_fuel(decimal, 4);
        reveal_with_fuel(decimal_text, 3);
        let x = s[0] as nat - '0' as nat;
        assert(is_digit(s[0]));
        if s.len() == 1 {
            assert(s.drop_last() == Seq::<char>::empty());
            assert(decimal(s) == x);
            assert(s == written_octet(n));
        } else if s.len() == 2 {
            assert(is_digit(s[1]));
            let y = s[1] as nat - '0' as nat;
            assert(s.drop_last() == seq![s[0]]);
            assert(s.drop_last().drop_last() == Seq::<char>::empty());
            assert(decimal(s) == x * 10 + y);
            assert(n / 10 == x && n % 10 == y);
            assert(s == written_octet(n));
        } else {
            assert(is_digit(s[1]));
            assert(is_digit(s[2]));
            let y = s[1] as nat - '0' as nat;
            let z = s[2] as nat - '0' as nat;
            assert(s.drop_last() == seq![s[0], s[1]]);
            assert(s.drop_last().drop_last() == seq![s[0]]);
            assert(s.drop_last().drop_last().drop_last() == Seq::<char>::empty());
            assert(decimal(s) == (x * 10 + y) * 10 + z);
            assert(n / 10 == x * 10 + y && n % 10 == z && n / 10 / 10 == x);
            assert(s == written_octet(n));
        }
    }
}

/// The first part of a string stands at its beginning, up to the first of the given characters.
proof fn lemma_first_part(s: Seq<char>, c: char)
    ensures
        ({
            let p = parts(s, c)[0];
            &&& parts(s, c).len() > 0
            &&& p.len() <= s.len()
            &&& s.take(p.len() as int) == p
            &&& parts(s, c).len() == 1 ==> p == s
            &&& parts(s, c).len() > 1 ==> p.len() < s.len() && s[p.len() as int] == c
        }),
    decreases s.len(),
{
    if s.len() == 0 {
        assert(s.take(0) == parts(s, c)[0]);
        assert(s == Seq::<char>::empty());
    } else {
        let front = s.drop_last();
        lemma_first_part(front, c);
        let p = parts(front, c)[0];
        let q = parts(s, c)[0];
        if s.last() == c {
            assert(q == p);
            assert(s.take(p.len() as int) == front.take(p.len() as int));
        } else if parts(front, c).len() == 1 {
            assert(front.push(s.last()) == s);
            assert(q == s);
            assert(s.take(q.len() as int) == s);
        } else {
            assert(q == p);
            assert(s.take(p.len() as int) == front.take(p.len() as int));
            assert(s[p.len() as int] == front[p.len() as int]);
        }
    }
}

/// An address is read exactly where one stands: four numbers up to 255 in decimal digits, without
/// zeros before them, with dots between them, at the beginning of the text, with nothing or a colon
/// behind them; and what stands behind the colon does not matter.
pub proof fn law_where_an_address_stands(s: Seq<char>)
    ensures
        ipv4_of(s) matches Some(ip) ==> {
            let host = written_ipv4(ip@[0], ip@[1], ip@[2], ip@[3]);
            &&& host.len() <= s.len()
            &&& s.take(host.len() as int) == host
            &&& host.len() == s.len() || s[host.len() as int] == ':'
        },
{
    if let Some(ip) = ipv4_of(s) {
        let host = parts(s, ':')[0];
        let p = parts(host, '.');
        lemma_first_part(s, ':');
        law_parts_make_up_the_string(host, '.');
        lemma_read_octet(p[0]);
        lemma_read_octet(p[1]);
        lemma_read_octet(p[2]);
        lemma_read_octet(p[3]);
        assert(ip@[0] == octet(p[0])->0);
        assert(ip@[1] == octet(p[1])->0);
        assert(ip@[2] == octet(p[2])->0);
        assert(ip@[3] == octet(p[3])->0);
        reveal_with_fuel(put_together, 4);
        let three = p.drop_last();
        let two = three.drop_last();
        assert(two.drop_last()[0] == p[0]);
        assert(host == written_ipv4(ip@[0], ip@[1], ip@[2], ip@[3]));
    }
}

/// An address that stands before a colon is read, whatever stands behind the colon.
pub proof fn law_address_before_a_colon_is_read(a: u8, b: u8, c: u8, d: u8, rest: Seq<char>)
    ensures
        ipv4_of(written_ipv4(a, b, c, d).push(':') + rest) == Some([a, b, c, d]),
{
    let host = written_ipv4(a, b, c, d);
    let none = Seq::<char>::empty();
    law_written_address_is_read_back(a, b, c, d, none);
    law_parts_on_both_sides(host, rest, ':');
    lemma_parts_nonempty(host, ':');
    assert((parts(host, ':') + parts(rest, ':'))[0] == parts(host, ':')[0]);
}

/// Where the question of a query stands: its name begins behind the twelve bytes of the header, and
/// its type and class stand behind the name, where there is room for them.
pub proof fn law_where_the_question_stands(
    header: Seq<u8>,
    labels: Seq<Seq<u8>>,
    rest: Seq<u8>,
    query: Seq<u8>,
)
    requires
        forall|i: int| 0 <= i < labels.len() ==> 1 <= (#[trigger] labels[i]).len() <= 191,
        header.len() == 12,
    ensures
        rest.len() >= 4 ==> question_type_at(header + encoded(labels) + seq![0u8] + rest) == Some(
            12 + encoded(labels).len() + 1int,
        ),
        rest.len() < 4 ==> question_type_at(header + encoded(labels) + seq![0u8] + rest) is None,
        question_type_at(query) matches Some(at) ==> {
            &&& 12 < at <= query.len() - 4
            &&& labels_at(query, 12) matches Some((_, end)) && end == at
        },
        query.len() < 12 || labels_at(query, 12) is None ==> question_type_at(query) is None,
{
    law_written_labels_are_read_back(header, labels, rest);
    lemma_labels_end(query, 12);
}

/// A reply, byte by byte: the identifier of the query; the mark of a reply, with the wish of the
/// query for recursion; the mark of a server that recurses, with 0 or 2 as the result; the number
/// of questions; one answer or none, and nothing else; the question; and the answer, which points
/// to the name of the question and gives an address, in the Internet, for five seconds, in four
/// bytes.
pub proof fn law_reply_byte_by_byte(query: Seq<u8>, at: int, host: Option<Seq<char>>, k: int)
    requires
        question_type_at(query) == Some(at),
    ensures
        ({
            let r = reply(query, at, host);
            let answers = host is Some && query[at] as int * 256 + query[at + 1] as int == 1;
            &&& r.len() == at + 4 + (if answers {
                16int
            } else {
                0
            })
            &&& r[0] == query[0] && r[1] == query[1]
            &&& r[2] == 128 + query[2] % 2
            &&& r[3] == 128 + (if host is Some {
                0int
            } else {
                2
            })
            &&& r[4] == query[4] && r[5] == query[5]
            &&& r[6] == 0 && r[7] == (if answers {
                1int
            } else {
                0
            })
            &&& r[8] == 0 && r[9] == 0 && r[10] == 0 && r[11] == 0
            &&& 12 <= k < at + 4 ==> r[k] == query[k]
            &&& answers ==> {
                &&& r[at + 4] == 0xC0 && r[at + 5] == 12
                &&& r[at + 6] == 0 && r[at + 7] == 1
                &&& r[at + 8] == 0 && r[at + 9] == 1
                &&& r[at + 10] == 0 && r[at + 11] == 0 && r[at + 12] == 0 && r[at + 13] == 5
                &&& r[at + 14] == 0 && r[at + 15] == 4
                &&& 0 <= k < 4 ==> r[at + 16 + k] == (match ipv4_of(host->0) {
                    Some(ip) => ip@[k],
                    None => 0u8,
                })
            }
        }),
{
    lemma_labels_end(query, 12);
    let b = query[2];
    assert(0x80u8 | (b & 0x01u8) == 128 + b % 2) by (bit_vector);
    assert(0x80u8 | 0u8 == 128) by (bit_vector);
    assert(0x80u8 | 2u8 == 130) by (bit_vector);
    let head = reply_header(query, host is Some, if host is Some && asks_for_address(query, at) {
        1
    } else {
        0
    });
    assert(head.len() == 12);
    assert(query.subrange(12, at + 4).len() == at - 8);
}

/// The answer of a query is the address of the edge that was located, and of the one that is chosen
/// for the host name of the network where no other is asked for.
pub proof fn law_which_host_is_answered(
    located: LocateResponse,
    nodes: Seq<NodeView>,
    scores: Seq<Double>,
    config: ControlConfig,
)
    ensures
        located_host(Some(&located)) == Some(located.addr@),
        located_host(None) is None,
        network_host(nodes, scores, config) is Some <==> chosen(
            "cdn.local"@,
            nodes,
            scores,
            config.replica_factor as int,
        ) is Some,
        chosen("cdn.local"@, nodes, scores, config.replica_factor as int) matches Some(i)
            ==> network_host(nodes, scores, config) == Some(nodes[i].addr),
{
}

} // verus!
