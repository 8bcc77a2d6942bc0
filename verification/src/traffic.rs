//! Generating load, and telling what came of it.
use vstd::prelude::*;
use vstd::seq_lib::*;

use crate::telemetry::shows;
use crate::text::{
    chars_of, decimal_text, is_space, law_parts_on_both_sides, lemma_text_lt_irreflexive,
    lemma_text_lt_total, lemma_text_lt_transitive, parts, same_text, split, strings, text_less,
    text_lt, trim, trim_end, trimmed, trimmed_end, without_leading_space, write_decimal,
};

verus! {

// ---------------------------------------------------------------------------
// Which object to ask for
// ---------------------------------------------------------------------------
/// The ten-thousandths by which the `i`-th request is placed among all: they look random, and
/// are the same in every run.
pub open spec fn slot(i: nat) -> nat {
    (i * 2654435761) % 0x1_0000_0000_0000_0000 % 10_000
}

/// The ten-thousandths by which the `i`-th request is placed among all.
pub fn zipf_slot(i: u64) -> (r: u64)
    ensures
        r == slot(i as nat),
        r < 10_000,
{
    i.wrapping_mul(2654435761) % 10_000
}

/// The object at a rank, where there are `keys` of them and at least one.
pub fn zipf_key(rank: usize, keys: usize) -> (r: usize)
    ensures
        keys == 0 ==> r == 0,
        keys > 0 ==> r == rank % keys && r < keys,
{
    let keys: usize = if keys < 1 {
        1
    } else {
        keys
    };
    rank % keys
}

/// Where the edge for an object is asked for.
pub fn locate_url(base: &str, key: u64) -> (r: String)
    ensures
        r@ == trimmed_end(base@, '/') + "/locate?key=/obj/"@ + decimal_text(key as nat),
{
    let mut r = trim_end(base, '/').to_owned();
    r.append("/locate?key=/obj/");
    r.append(write_decimal(key).as_str());
    r
}

/// Where an object of a size is asked for at an edge.
pub fn object_url(addr: &str, key: u64, size: u64) -> (r: String)
    ensures
        r@ == "http://"@ + addr@ + "/obj/"@ + decimal_text(key as nat) + "?size="@ + decimal_text(
            size as nat,
        ),
{
    let mut r = "http://".to_owned();
    r.append(addr);
    r.append("/obj/");
    r.append(write_decimal(key).as_str());
    r.append("?size=");
    r.append(write_decimal(size).as_str());
    r
}

/// Where the edges are listed.
pub fn nodes_url(base: &str) -> (r: String)
    ensures
        r@ == trimmed_end(base@, '/') + "/nodes"@,
{
    let mut r = trim_end(base, '/').to_owned();
    r.append("/nodes");
    r
}

// ---------------------------------------------------------------------------
// What came of the requests
// ---------------------------------------------------------------------------
/// The latencies of some requests are in order.
pub open spec fn ascending(xs: Seq<u128>) -> bool {
    forall|i: int, j: int| 0 <= i <= j < xs.len() ==> #[trigger] xs[i] <= #[trigger] xs[j]
}

/// Names are in order, and none is listed twice.
pub open spec fn names_ascend(s: Seq<(Seq<char>, u64)>) -> bool {
    forall|i: int, j: int|
        0 <= i < j < s.len() ==> text_lt((#[trigger] s[i]).0, (#[trigger] s[j]).0)
}

/// How often a name was counted.
pub open spec fn count_of(s: Seq<(Seq<char>, u64)>, id: Seq<char>) -> u64 {
    if exists|i: int| 0 <= i < s.len() && (#[trigger] s[i]).0 == id {
        s[choose|i: int| 0 <= i < s.len() && (#[trigger] s[i]).0 == id].1
    } else {
        0
    }
}

/// What came of some requests.
pub struct TallyView {
    pub ok: u64,
    pub fail: u64,
    /// How long each took, in nanoseconds, the shortest first.
    pub latencies: Seq<u128>,
    /// How many were sent to each edge, in the order of names.
    pub steered: Seq<(Seq<char>, u64)>,
}

impl TallyView {
    /// What holds of every tally.
    pub open spec fn valid(self) -> bool {
        &&& ascending(self.latencies)
        &&& names_ascend(self.steered)
        &&& forall|i: int| 0 <= i < self.steered.len() ==> (#[trigger] self.steered[i]).1 > 0
    }
}

/// What came of some requests.
pub struct Tally {
    ok: u64,
    fail: u64,
    latencies: Vec<u128>,
    steered: Vec<(String, u64)>,
}

/// The names and numbers of some counts.
pub open spec fn counts(s: Seq<(String, u64)>) -> Seq<(Seq<char>, u64)> {
    s.map_values(|c: (String, u64)| (c.0@, c.1))
}

impl View for Tally {
    type V = TallyView;

    closed spec fn view(&self) -> TallyView {
        TallyView {
            ok: self.ok,
            fail: self.fail,
            latencies: self.latencies@,
            steered: counts(self.steered@),
        }
    }
}

impl Tally {
    /// No request was made.
    pub fn new() -> (r: Self)
        ensures
            r@ == (TallyView { ok: 0, fail: 0, latencies: Seq::empty(), steered: Seq::empty() }),
            r@.valid(),
    {
        let r = Tally { ok: 0, fail: 0, latencies: Vec::new(), steered: Vec::new() };
        assert(r@.steered == Seq::<(Seq<char>, u64)>::empty());
        r
    }

    /// Counts a request that was sent to an edge.
    pub fn steer(&mut self, node_id: String)
        requires
            old(self)@.valid(),
            count_of(old(self)@.steered, node_id@) < u64::MAX,
        ensures
            final(self)@.valid(),
            final(self)@ == (TallyView { steered: final(self)@.steered, ..old(self)@ }),
            count_of(final(self)@.steered, node_id@) == count_of(old(self)@.steered, node_id@) + 1,
            forall|id: Seq<char>|
                id != node_id@ ==> #[trigger] count_of(final(self)@.steered, id) == count_of(
                    old(self)@.steered,
                    id,
                ),
    {
        let ghost before = self@.steered;
        let mut p: usize = 0;
        while p < self.steered.len() && text_less(self.steered[p].0.as_str(), node_id.as_str())
            invariant
                self@ == old(self)@,
                before == self@.steered,
                p <= before.len(),
                forall|i: int| 0 <= i < p ==> text_lt((#[trigger] before[i]).0, node_id@),
            decreases self.steered@.len() - p,
        {
            assert(before[p as int].0 == self.steered@[p as int].0@);
            p += 1;
        }
        if p < self.steered.len() && same_text(self.steered[p].0.as_str(), node_id.as_str()) {
            assert(before[p as int] == (node_id@, self.steered@[p as int].1));
            proof {
                lemma_count_at(before, p as int);
            }
            let n: u64 = self.steered[p].1;
            self.steered.set(p, (node_id, n + 1));
            proof {
                assert(self@.steered == before.update(p as int, (node_id@, (n + 1) as u64)));
                lemma_count_update(before, p as int, (n + 1) as u64);
            }
        } else {
            proof {
                if p < before.len() {
                    assert(before[p as int].0 == self.steered@[p as int].0@);
                    lemma_text_lt_total(before[p as int].0, node_id@);
                }
            }
            let ghost id = node_id@;
            self.steered.insert(p, (node_id, 1));
            proof {
                assert(self@.steered == before.insert(p as int, (id, 1u64)));
                lemma_count_insert(before, p as int, id);
            }
        }
    }

    /// Counts a request that is over: how long it took, in nanoseconds, and whether it succeeded.
    pub fn record(&mut self, elapsed: u128, success: bool)
        requires
            old(self)@.valid(),
            success ==> old(self)@.ok < u64::MAX,
            !success ==> old(self)@.fail < u64::MAX,
        ensures
            final(self)@.valid(),
            final(self)@ == (TallyView {
                ok: (old(self)@.ok + if success {
                    1int
                } else {
                    0
                }) as u64,
                fail: (old(self)@.fail + if success {
                    0int
                } else {
                    1
                }) as u64,
                latencies: final(self)@.latencies,
                ..old(self)@
            }),
            final(self)@.latencies.to_multiset() == old(self)@.latencies.to_multiset().insert(
                elapsed,
            ),
    {
        let ghost before = self.latencies@;
        let mut p: usize = 0;
        while p < self.latencies.len() && self.latencies[p] <= elapsed
            invariant
                self@ == old(self)@,
                before == self.latencies@,
                p <= before.len(),
                forall|i: int| 0 <= i < p ==> #[trigger] before[i] <= elapsed,
            decreases self.latencies@.len() - p,
        {
            p += 1;
        }
        self.latencies.insert(p, elapsed);
        proof {
            broadcast use group_to_multiset_ensures;

            let after = self.latencies@;
            assert(after == before.insert(p as int, elapsed));
            assert forall|i: int, j: int| 0 <= i <= j < after.len() implies #[trigger] after[i]
                <= #[trigger] after[j] by {
                let h = if i < p {
                    i
                } else {
                    i - 1
                };
                let k = if j < p {
                    j
                } else {
                    j - 1
                };
                if i != p && j != p {
                    assert(before[h] <= before[k]);
                } else if i == p && j > p {
                    assert(before[p as int] <= before[k]);
                }
            }
        }
        if success {
            self.ok += 1;
        } else {
            self.fail += 1;
        }
    }

    /// The number of requests that succeeded.
    pub fn ok(&self) -> (n: u64)
        ensures
            n == self@.ok,
    {
        self.ok
    }

    /// The number of requests that failed.
    pub fn fail(&self) -> (n: u64)
        ensures
            n == self@.fail,
    {
        self.fail
    }

    /// The number of requests whose latency was recorded.
    pub fn recorded(&self) -> (n: usize)
        ensures
            n == self@.latencies.len(),
    {
        self.latencies.len()
    }

    /// The latency at a rank, the longest where the rank is too high, and zero where there is
    /// none.
    pub fn percentile(&self, rank: usize) -> (r: u128)
        ensures
            r == at_rank(self@.latencies, rank as int),
    {
        if self.latencies.len() == 0 {
            return 0;
        }
        let last: usize = self.latencies.len() - 1;
        self.latencies[if rank < last {
            rank
        } else {
            last
        }]
    }

    /// How many requests were sent to each edge, in the order of names.
    pub fn mix(&self) -> (r: Vec<(String, u64)>)
        ensures
            counts(r@) == self@.steered,
    {
        let mut r: Vec<(String, u64)> = Vec::new();
        let mut i: usize = 0;
        while i < self.steered.len()
            invariant
                i <= self.steered@.len(),
                counts(r@) == counts(self.steered@).take(i as int),
            decreases self.steered@.len() - i,
        {
            let ghost before = r@;
            r.push((self.steered[i].0.clone(), self.steered[i].1));
            assert(counts(r@) == counts(before).push(counts(self.steered@)[i as int]));
            assert(counts(r@) == counts(self.steered@).take(i + 1));
            i += 1;
        }
        assert(counts(r@) == counts(self.steered@));
        r
    }
}

/// The latency at a rank, the longest where the rank is too high, and zero where there is none.
pub open spec fn at_rank(xs: Seq<u128>, rank: int) -> u128 {
    if xs.len() == 0 {
        0
    } else if rank < xs.len() {
        xs[rank]
    } else {
        xs.last()
    }
}

/// A higher rank is no shorter a latency.
pub proof fn law_percentiles_ascend(t: TallyView, low: int, high: int)
    requires
        t.valid(),
        0 <= low <= high,
    ensures
        at_rank(t.latencies, low) <= at_rank(t.latencies, high),
{
}

/// A name that is listed was counted as often as is listed with it.
proof fn lemma_count_at(s: Seq<(Seq<char>, u64)>, i: int)
    requires
        names_ascend(s),
        0 <= i < s.len(),
    ensures
        count_of(s, s[i].0) == s[i].1,
{
    let j = choose|j: int| 0 <= j < s.len() && (#[trigger] s[j]).0 == s[i].0;
    assert(0 <= j < s.len() && s[j].0 == s[i].0);
    lemma_text_lt_irreflexive(s[i].0);
    if i < j {
        assert(text_lt(s[i].0, s[j].0));
    } else if j < i {
        assert(text_lt(s[j].0, s[i].0));
    }
}

proof fn lemma_count_update(s: Seq<(Seq<char>, u64)>, p: int, n: u64)
    requires
        names_ascend(s),
        0 <= p < s.len(),
    ensures
        ({
            let t = s.update(p, (s[p].0, n));
            &&& names_ascend(t)
            &&& count_of(t, s[p].0) == n
            &&& forall|id: Seq<char>| id != s[p].0 ==> #[trigger] count_of(t, id) == count_of(s, id)
        }),
{
    let t = s.update(p, (s[p].0, n));
    assert forall|i: int, j: int| 0 <= i < j < t.len() implies text_lt(
        (#[trigger] t[i]).0,
        (#[trigger] t[j]).0,
    ) by {
        assert(text_lt(s[i].0, s[j].0));
    }
    lemma_count_at(t, p);
    assert forall|id: Seq<char>| id != s[p].0 implies #[trigger] count_of(t, id) == count_of(
        s,
        id,
    ) by {
        if exists|i: int| 0 <= i < s.len() && (#[trigger] s[i]).0 == id {
            let i = choose|i: int| 0 <= i < s.len() && (#[trigger] s[i]).0 == id;
            assert(t[i] == s[i]);
            lemma_count_at(s, i);
            lemma_count_at(t, i);
        } else {
            assert forall|i: int| 0 <= i < t.len() implies (#[trigger] t[i]).0 != id by {
                assert(s[i].0 != id);
            }
        }
    }
}

proof fn lemma_count_insert(s: Seq<(Seq<char>, u64)>, p: int, id: Seq<char>)
    requires
        names_ascend(s),
        0 <= p <= s.len(),
        forall|i: int| 0 <= i < p ==> text_lt((#[trigger] s[i]).0, id),
        p < s.len() ==> text_lt(id, s[p].0),
    ensures
        ({
            let t = s.insert(p, (id, 1u64));
            &&& names_ascend(t)
            &&& count_of(s, id) == 0
            &&& count_of(t, id) == 1
            &&& forall|x: Seq<char>| x != id ==> #[trigger] count_of(t, x) == count_of(s, x)
        }),
{
    let t = s.insert(p, (id, 1u64));
    assert forall|i: int| p <= i < s.len() implies text_lt(id, (#[trigger] s[i]).0) by {
        if i > p {
            assert(text_lt(s[p].0, s[i].0));
            lemma_text_lt_transitive(id, s[p].0, s[i].0);
        }
    }
    assert forall|i: int| 0 <= i < s.len() implies (#[trigger] s[i]).0 != id by {
        lemma_text_lt_irreflexive(id);
    }
    assert forall|i: int, j: int| 0 <= i < j < t.len() implies text_lt(
        (#[trigger] t[i]).0,
        (#[trigger] t[j]).0,
    ) by {
        let h = if i < p {
            i
        } else {
            i - 1
        };
        let k = if j < p {
            j
        } else {
            j - 1
        };
        if i == p {
            assert(t[j] == s[k]);
        } else if j == p {
            assert(t[i] == s[h]);
        } else {
            assert(t[i] == s[h] && t[j] == s[k]);
            assert(text_lt(s[h].0, s[k].0));
        }
    }
    assert(t[p] == (id, 1u64));
    lemma_count_at(t, p);
    assert forall|x: Seq<char>| x != id implies #[trigger] count_of(t, x) == count_of(s, x) by {
        if exists|i: int| 0 <= i < s.len() && (#[trigger] s[i]).0 == x {
            let i = choose|i: int| 0 <= i < s.len() && (#[trigger] s[i]).0 == x;
            let h = if i < p {
                i
            } else {
                i + 1
            };
            assert(t[h] == s[i]);
            lemma_count_at(s, i);
            lemma_count_at(t, h);
        } else {
            assert forall|i: int| 0 <= i < t.len() implies (#[trigger] t[i]).0 != x by {
                if i != p {
                    let h = if i < p {
                        i
                    } else {
                        i - 1
                    };
                    assert(t[i] == s[h]);
                    assert(s[h].0 != x);
                }
            }
        }
    }
}

// ---------------------------------------------------------------------------
// The edges
// ---------------------------------------------------------------------------
/// An edge: its name and its address.
#[derive(Debug)]
pub struct NodeRow {
    pub node_id: String,
    pub addr: String,
}

/// The parts of a list that are not empty.
pub open spec fn listed(raw: Seq<char>) -> Seq<Seq<char>> {
    parts(raw, ',').filter(|p: Seq<char>| p.len() > 0)
}

/// The name of the `i`-th edge of a list.
pub open spec fn edge_name(i: int) -> Seq<char> {
    "edge-"@ + decimal_text(i as nat)
}

/// The edges of a list of addresses with commas between them, named by their places. An empty
/// text is no list.
pub fn parse_edges(raw: &str) -> (r: Option<Vec<NodeRow>>)
    ensures
        r is None <==> raw@.len() == 0,
        r matches Some(rows) ==> {
            &&& rows@.len() == listed(raw@).len()
            &&& forall|i: int|
                0 <= i < rows@.len() ==> (#[trigger] rows@[i]).node_id@ == edge_name(i)
                    && rows@[i].addr@ == trimmed(listed(raw@)[i])
        },
{
    if raw.unicode_len() == 0 {
        return None;
    }
    let pieces = split(raw, ',');
    let ghost all = parts(raw@, ',');
    let mut rows: Vec<NodeRow> = Vec::new();
    let mut i: usize = 0;
    proof {
        reveal(Seq::filter);
        assert(all.take(0) == Seq::<Seq<char>>::empty());
    }
    while i < pieces.len()
        invariant
            all == strings(pieces@),
            i <= pieces@.len(),
            rows@.len() <= i,
            rows@.len() == all.take(i as int).filter(|p: Seq<char>| p.len() > 0).len(),
            forall|j: int|
                0 <= j < rows@.len() ==> (#[trigger] rows@[j]).node_id@ == edge_name(j)
                    && rows@[j].addr@ == trimmed(
                    all.take(i as int).filter(|p: Seq<char>| p.len() > 0)[j],
                ),
        decreases pieces@.len() - i,
    {
        let piece = pieces[i].as_str();
        proof {
            reveal(Seq::filter);
            assert(all[i as int] == piece@);
            assert(all.take(i + 1).drop_last() == all.take(i as int));
            assert(all.take(i + 1).last() == all[i as int]);
        }
        if piece.unicode_len() > 0 {
            let mut node_id = "edge-".to_owned();
            node_id.append(write_decimal(rows.len() as u64).as_str());
            rows.push(NodeRow { node_id, addr: trim(piece).to_owned() });
        }
        i += 1;
    }
    assert(all.take(i as int) == all);
    Some(rows)
}

// ---------------------------------------------------------------------------
// Metrics
// ---------------------------------------------------------------------------
/// Whether a line of a metrics page gives the value of a metric: it is no comment, and the name
/// of the metric stands at its beginning, with a blank behind it.
pub open spec fn is_sample(line: Seq<char>, name: Seq<char>) -> bool {
    &&& !(line.len() > 0 && line[0] == '#')
    &&& name.len() < line.len()
    &&& line.take(name.len() as int) == name
    &&& line[name.len() as int] == ' ' || line[name.len() as int] == '\t'
}

/// The value that the first of some lines gives for a metric.
pub open spec fn sample_in(lines: Seq<Seq<char>>, name: Seq<char>) -> Option<Seq<char>>
    decreases lines.len(),
{
    if lines.len() == 0 {
        None
    } else if is_sample(lines.first(), name) {
        Some(trimmed(lines.first().skip(name.len() as int)))
    } else {
        sample_in(lines.drop_first(), name)
    }
}

fn sample_line(line: &str, name: &str) -> (r: Option<String>)
    ensures
        match r {
            Some(value) => is_sample(line@, name@) && value@ == trimmed(
                line@.skip(name@.len() as int),
            ),
            None => !is_sample(line@, name@),
        },
{
    let x = chars_of(line);
    let y = chars_of(name);
    if (x.len() > 0 && x[0] == '#') || x.len() <= y.len() {
        return None;
    }
    let mut i: usize = 0;
    while i < y.len()
        invariant
            x@ == line@,
            y@ == name@,
            y@.len() < x@.len(),
            i <= y@.len(),
            forall|j: int| 0 <= j < i ==> x@[j] == y@[j],
        decreases y@.len() - i,
    {
        if x[i] != y[i] {
            assert(line@.take(name@.len() as int)[i as int] != name@[i as int]);
            return None;
        }
        i += 1;
    }
    assert(line@.take(name@.len() as int) == name@);
    if x[i] != ' ' && x[i] != '\t' {
        return None;
    }
    assert(line@.subrange(i as int, x@.len() as int) == line@.skip(i as int));
    Some(trim(line.substring_char(i, x.len())).to_owned())
}

/// The value of a metric on a metrics page, as it is written there.
pub fn scrape(text: &str, name: &str) -> (r: Option<String>)
    ensures
        match sample_in(parts(text@, '\n'), name@) {
            Some(v) => r matches Some(value) && value@ == v,
            None => r is None,
        },
{
    let lines = split(text, '\n');
    let ghost all = parts(text@, '\n');
    let mut i: usize = 0;
    assert(all.skip(0) == all);
    while i < lines.len()
        invariant
            all == parts(text@, '\n'),
            all == strings(lines@),
            i <= lines@.len(),
            sample_in(all.skip(i as int), name@) == sample_in(all, name@),
        decreases lines@.len() - i,
    {
        assert(all.skip(i as int).first() == lines@[i as int]@);
        assert(all.skip(i as int).drop_first() == all.skip(i + 1));
        match sample_line(lines[i].as_str(), name) {
            Some(value) => {
                return Some(value);
            },
            None => {},
        }
        i += 1;
    }
    None
}

/// A value is found wherever it stands: behind lines that do not give the metric, the first line
/// that does decides.
pub proof fn law_first_sample_decides(lines: Seq<Seq<char>>, name: Seq<char>, i: int)
    requires
        0 <= i < lines.len(),
        is_sample(lines[i], name),
        forall|j: int| 0 <= j < i ==> !is_sample(#[trigger] lines[j], name),
    ensures
        sample_in(lines, name) == Some(trimmed(lines[i].skip(name.len() as int))),
    decreases i,
{
    if i > 0 {
        assert(!is_sample(lines[0], name));
        let rest = lines.drop_first();
        assert forall|j: int| 0 <= j < i - 1 implies !is_sample(#[trigger] rest[j], name) by {
            assert(rest[j] == lines[j + 1]);
        }
        law_first_sample_decides(rest, name, i - 1);
    }
}

/// Digits are not white space.
proof fn lemma_decimal_text(n: nat)
    ensures
        decimal_text(n).len() > 0,
        !is_space(decimal_text(n).first()),
        !is_space(decimal_text(n).last()),
    decreases n,
{
    if n >= 10 {
        lemma_decimal_text(n / 10);
        assert(decimal_text(n).first() == decimal_text(n / 10).first());
    }
}

/// What an edge counts is what is read off its page: where a page shows a value for a metric, and
/// no other line gives that metric, the value is found as it was written.
pub proof fn law_shown_value_is_found(text: Seq<char>, name: Seq<char>, value: nat)
    requires
        shows(text, name, value as int),
        name.len() > 0,
        name[0] != '#',
        forall|j: int|
            0 <= j < parts(text, '\n').len() && is_sample(#[trigger] parts(text, '\n')[j], name)
                ==> parts(text, '\n')[j] == name.push(' ') + decimal_text(value),
    ensures
        sample_in(parts(text, '\n'), name) == Some(decimal_text(value)),
{
    let lines = parts(text, '\n');
    let digits = decimal_text(value);
    let line = name.push(' ') + digits;
    lemma_decimal_text(value);
    assert(line.take(name.len() as int) == name);
    assert(line[0] == name[0]);
    assert(line[name.len() as int] == ' ');
    assert(is_sample(line, name));
    let at = choose|i: int| 0 <= i < lines.len() && lines[i] == line;
    lemma_first_sample(lines, name, at, line);
    let rest = line.skip(name.len() as int);
    assert(rest.first() == ' ');
    assert(rest.drop_first() == digits);
    assert(without_leading_space(digits) == digits);
    assert(without_leading_space(rest) == digits);
    assert(trimmed(rest) == digits);
}

proof fn lemma_first_sample(lines: Seq<Seq<char>>, name: Seq<char>, at: int, line: Seq<char>)
    requires
        0 <= at < lines.len(),
        lines[at] == line,
        is_sample(line, name),
        forall|j: int|
            0 <= j < lines.len() && is_sample(#[trigger] lines[j], name) ==> lines[j] == line,
    ensures
        sample_in(lines, name) == Some(trimmed(line.skip(name.len() as int))),
    decreases lines.len(),
{
    if !is_sample(lines[0], name) {
        let rest = lines.drop_first();
        assert(rest[at - 1] == line);
        assert forall|j: int|
            0 <= j < rest.len() && is_sample(#[trigger] rest[j], name) implies rest[j] == line by {
            assert(rest[j] == lines[j + 1]);
        }
        lemma_first_sample(rest, name, at - 1, line);
    }
}

/// Where a request is placed: its number times a large prime, of which the multiples of two to the
/// power of 64 and then those of ten thousand are taken away.
pub proof fn law_where_a_request_is_placed(i: nat) -> (whole: (nat, nat))
    ensures
        slot(i) < 10_000,
        i * 2654435761 == whole.0 * 0x1_0000_0000_0000_0000 + whole.1 * 10_000 + slot(i),
        whole.1 * 10_000 + slot(i) < 0x1_0000_0000_0000_0000,
{
    let all = i * 2654435761;
    let low = all % 0x1_0000_0000_0000_0000;
    (all / 0x1_0000_0000_0000_0000, low / 10_000)
}

/// The latency at a rank is one that was recorded, with as many no longer ones before it as the
/// rank, and the longest of all where the rank is too high; where nothing was recorded it is zero.
pub proof fn law_latency_at_a_rank(t: TallyView, rank: int, i: int)
    requires
        t.valid(),
        0 <= rank,
        0 <= i < t.latencies.len(),
    ensures
        t.latencies.contains(at_rank(t.latencies, rank)),
        i <= rank ==> t.latencies[i] <= at_rank(t.latencies, rank),
        i >= rank ==> at_rank(t.latencies, rank) <= t.latencies[i],
        at_rank(Seq::<u128>::empty(), rank) == 0,
{
    let n = t.latencies.len() as int;
    if rank < n {
        assert(t.latencies[rank] == at_rank(t.latencies, rank));
    } else {
        assert(t.latencies[n - 1] == at_rank(t.latencies, rank));
    }
}

/// A tally is in order exactly if its latencies ascend, its names are in order with none of them
/// twice, and none of them was counted zero times.
pub proof fn law_what_a_tally_in_order_is(t: TallyView)
    ensures
        t.valid() <==> {
            &&& forall|i: int, j: int|
                0 <= i <= j < t.latencies.len() ==> #[trigger] t.latencies[i]
                    <= #[trigger] t.latencies[j]
            &&& forall|i: int, j: int|
                0 <= i < j < t.steered.len() ==> text_lt(
                    (#[trigger] t.steered[i]).0,
                    (#[trigger] t.steered[j]).0,
                )
            &&& forall|i: int| 0 <= i < t.steered.len() ==> (#[trigger] t.steered[i]).1 >= 1
        },
{
}

/// A name was counted as often as is listed with it, and a name that is not listed never.
pub proof fn law_how_often_a_name_was_counted(t: TallyView, id: Seq<char>)
    requires
        t.valid(),
    ensures
        forall|i: int|
            0 <= i < t.steered.len() && (#[trigger] t.steered[i]).0 == id ==> count_of(
                t.steered,
                id,
            ) == t.steered[i].1,
        (forall|i: int| 0 <= i < t.steered.len() ==> (#[trigger] t.steered[i]).0 != id)
            ==> count_of(t.steered, id) == 0,
{
    assert forall|i: int|
        0 <= i < t.steered.len() && (#[trigger] t.steered[i]).0 == id implies count_of(
        t.steered,
        id,
    ) == t.steered[i].1 by {
        lemma_count_at(t.steered, i);
    }
}

/// The names and numbers of some counts, one for one.
pub proof fn law_what_counts_are(s: Seq<(String, u64)>, i: int)
    requires
        0 <= i < s.len(),
    ensures
        counts(s).len() == s.len(),
        counts(s)[i].0 == s[i].0@,
        counts(s)[i].1 == s[i].1,
{
}

proof fn lemma_filter_add(a: Seq<Seq<char>>, b: Seq<Seq<char>>)
    ensures
        (a + b).filter(|p: Seq<char>| p.len() > 0) == a.filter(|p: Seq<char>| p.len() > 0)
            + b.filter(|p: Seq<char>| p.len() > 0),
    decreases b.len(),
{
    reveal(Seq::filter);
    let keep = |p: Seq<char>| p.len() > 0;
    if b.len() == 0 {
        assert(a + b == a);
        assert(b == Seq::<Seq<char>>::empty());
        assert(a.filter(keep) + b.filter(keep) == a.filter(keep));
    } else {
        lemma_filter_add(a, b.drop_last());
        assert((a + b).drop_last() == a + b.drop_last());
        assert((a + b).last() == b.last());
        if b.last().len() > 0 {
            assert((a.filter(keep) + b.drop_last().filter(keep)).push(b.last()) == a.filter(keep)
                + b.drop_last().filter(keep).push(b.last()));
        }
    }
}

/// A list has its items between commas: what stands before a comma and what stands behind it are
/// listed each for itself, what has no comma in it is one item, and nothing is none.
pub proof fn law_what_is_listed(a: Seq<char>, b: Seq<char>)
    ensures
        listed(a.push(',') + b) == listed(a) + listed(b),
        !a.contains(',') && a.len() > 0 ==> listed(a) == seq![a],
        listed(Seq::<char>::empty()) == Seq::<Seq<char>>::empty(),
{
    reveal(Seq::filter);
    let keep = |p: Seq<char>| p.len() > 0;
    let none = Seq::<Seq<char>>::empty();
    law_parts_on_both_sides(a, b, ',');
    lemma_filter_add(parts(a, ','), parts(b, ','));
    if !a.contains(',') && a.len() > 0 {
        assert(seq![a].drop_last() == none);
        assert(seq![a].last() == a);
        assert(none.push(a) == seq![a]);
    }
    let empty = Seq::<char>::empty();
    assert(seq![empty].drop_last() == none);
    assert(seq![empty].last() == empty);
    assert(parts(empty, ',') == seq![empty]);
    assert(none.filter(keep) == none);
}

/// Edges of a list are named by their places, from zero on.
pub proof fn law_how_edges_are_named(i: int)
    requires
        0 <= i,
    ensures
        edge_name(i).take(5) == seq!['e', 'd', 'g', 'e', '-'],
        edge_name(i).skip(5) == decimal_text(i as nat),
{
    reveal_strlit("edge-");
    assert(edge_name(i).take(5) == seq!['e', 'd', 'g', 'e', '-']);
    assert(edge_name(i).skip(5) == decimal_text(i as nat));
}

/// A line gives a metric exactly if it is the name of the metric, a blank or a tabulator and then
/// anything, and is no comment.
pub proof fn law_which_lines_give_a_metric(name: Seq<char>, line: Seq<char>)
    ensures
        is_sample(line, name) <==> line.len() > 0 && line[0] != '#' && exists|rest: Seq<char>|
            line == #[trigger] name.push(' ') + rest || line == name.push('\t') + rest,
{
    if is_sample(line, name) {
        let rest = line.skip(name.len() as int + 1);
        let c = line[name.len() as int];
        assert forall|i: int| 0 <= i < line.len() implies line[i] == (name.push(c) + rest)[i] by {
            if i < name.len() {
                assert(line.take(name.len() as int)[i] == name[i]);
            }
        }
        assert(line == name.push(c) + rest);
        assert(line == name.push(' ') + rest || line == name.push('\t') + rest);
    }
    if line.len() > 0 && line[0] != '#' && exists|rest: Seq<char>|
        line == #[trigger] name.push(' ') + rest || line == name.push('\t') + rest {
        let rest = choose|rest: Seq<char>|
            line == #[trigger] name.push(' ') + rest || line == name.push('\t') + rest;
        assert(line.take(name.len() as int) == name);
    }
}

/// A metric that no line gives has no value.
pub proof fn law_no_sample_no_value(lines: Seq<Seq<char>>, name: Seq<char>)
    requires
        forall|j: int| 0 <= j < lines.len() ==> !is_sample(#[trigger] lines[j], name),
    ensures
        sample_in(lines, name) is None,
    decreases lines.len(),
{
    if lines.len() > 0 {
        assert(!is_sample(lines[0], name));
        let rest = lines.drop_first();
        assert forall|j: int| 0 <= j < rest.len() implies !is_sample(#[trigger] rest[j], name) by {
            assert(rest[j] == lines[j + 1]);
        }
        law_no_sample_no_value(rest, name);
    }
}

} // verus!
