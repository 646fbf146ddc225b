//! The answer cache: question vectors to the answers that came for them.

use crate::dns::buf::{be16_bytes, lemma_overwrite_reads, window, Buf, BUF_LEN};
use crate::dns::header::{header_at, Header, HEADER_LEN};
use crate::dns::packet::{
    answers_at, counted, packet_at, packet_error, packet_wire, questions_at, views, Packet,
    PacketView,
};
use crate::dns::question::{Question, QuestionView};
use crate::dns::record::{answer_at, Answer, AnswerView};
use vstd::prelude::*;
use vstd::slice::slice_to_vec;

verus! {

/// The number of nanoseconds in a second. The cache is handed the time as a
/// count of nanoseconds from a moment that its user has chosen.
pub const NANOS_PER_SEC: u64 = 1_000_000_000;

/// The whole seconds between `creation` and `now`; none where `now` is the
/// earlier of the two.
pub open spec fn age_secs(creation: u64, now: u64) -> int {
    if now >= creation {
        (now - creation) / (NANOS_PER_SEC as int)
    } else {
        0
    }
}

/// What the cache keeps for one question vector.
#[derive(Debug)]
pub struct CacheEntry {
    answers: Vec<Answer>,
    creation: u64,
}

/// What a [`CacheEntry`] holds.
pub struct EntryView {
    pub answers: Seq<AnswerView>,
    pub creation: u64,
}

/// An entry is expired as soon as its age in whole seconds has reached the
/// time to live of one of its answers.
pub open spec fn expired(entry: EntryView, now: u64) -> bool {
    exists|i: int|
        0 <= i < entry.answers.len() && age_secs(entry.creation, now)
            >= (#[trigger] entry.answers[i]).ttl
}

impl View for CacheEntry {
    type V = EntryView;

    closed spec fn view(&self) -> EntryView {
        EntryView { answers: views(self.answers@), creation: self.creation }
    }
}

impl CacheEntry {
    /// An entry of `answers` that was made at `creation`.
    pub fn new(answers: Vec<Answer>, creation: u64) -> (e: Self)
        ensures
            e@ == (EntryView { answers: views(answers@), creation }),
    {
        Self { answers, creation }
    }

    /// Whether the entry is too old at `now`.
    pub fn is_expired(&self, now: u64) -> (r: bool)
        ensures
            r == expired(self@, now),
    {
        let age: u64 = if now >= self.creation {
            (now - self.creation) / NANOS_PER_SEC
        } else {
            0
        };
        let n = self.answers.len();
        let mut i: usize = 0;
        while i < n
            invariant
                i <= n,
                n == self.answers@.len(),
                age == age_secs(self.creation, now),
                forall|j: int| 0 <= j < i ==> age < (#[trigger] self@.answers[j]).ttl,
            decreases n - i,
        {
            if age >= self.answers[i].ttl() as u64 {
                assert(self@.answers[i as int].ttl == self.answers@[i as int].ttl);
                return true;
            }
            i += 1;
        }
        false
    }

    /// The answers of the entry.
    pub fn answers(&self) -> (r: &[Answer])
        ensures
            views(r@) == self@.answers,
    {
        self.answers.as_slice()
    }
}

/// One question vector and what is kept for it.
struct Slot {
    key: Vec<Question>,
    entry: CacheEntry,
}

/// What the cache holds: for each question vector at most one entry.
pub type CacheView = Map<Seq<QuestionView>, EntryView>;

/// The map that the first `n` slots make.
spec fn slots_map(slots: Seq<Slot>, n: nat) -> CacheView
    decreases n,
{
    if n == 0 {
        Map::empty()
    } else {
        slots_map(slots, (n - 1) as nat).insert(
            views(slots[n - 1].key@),
            slots[n - 1].entry@,
        )
    }
}

/// No question vector has two slots.
spec fn distinct(slots: Seq<Slot>) -> bool {
    forall|i: int, j: int|
        0 <= i < j < slots.len() ==> views(#[trigger] slots[i].key@) != views(
            #[trigger] slots[j].key@,
        )
}

/// The map of the first `n` slots holds the keys of these slots and no
/// others.
proof fn lemma_slots_map_dom(slots: Seq<Slot>, n: nat, k: Seq<QuestionView>)
    requires
        n <= slots.len(),
    ensures
        slots_map(slots, n).dom().contains(k) <==> exists|i: int|
            0 <= i < n && views(#[trigger] slots[i].key@) == k,
    decreases n,
{
    if n > 0 {
        lemma_slots_map_dom(slots, (n - 1) as nat, k);
        let prev = slots_map(slots, (n - 1) as nat);
        let last = views(slots[n - 1].key@);
        if slots_map(slots, n).dom().contains(k) {
            if k != last {
                assert(prev.dom().contains(k));
                let i = choose|i: int| 0 <= i < n - 1 && views(#[trigger] slots[i].key@) == k;
                assert(0 <= i < n && views(slots[i].key@) == k);
            }
        }
        if exists|i: int| 0 <= i < n && views(#[trigger] slots[i].key@) == k {
            let i = choose|i: int| 0 <= i < n && views(#[trigger] slots[i].key@) == k;
            if i < n - 1 {
                assert(0 <= i < n - 1 && views(slots[i].key@) == k);
            }
        }
    }
}

/// Where no key has two slots, the map of the first `n` slots holds for the
/// key of each of them its entry.
proof fn lemma_slots_map_entry(slots: Seq<Slot>, n: nat, at: int)
    requires
        n <= slots.len(),
        distinct(slots),
        0 <= at < n,
    ensures
        slots_map(slots, n).dom().contains(views(slots[at].key@)),
        slots_map(slots, n)[views(slots[at].key@)] == slots[at].entry@,
    decreases n,
{
    if at < n - 1 {
        lemma_slots_map_entry(slots, (n - 1) as nat, at);
        assert(views(slots[at].key@) != views(slots[n - 1].key@));
    }
}

/// The maps of two sequences of slots that agree in keys and entries over
/// their first `n` slots are the same.
proof fn lemma_slots_map_same(a: Seq<Slot>, b: Seq<Slot>, n: nat)
    requires
        n <= a.len(),
        n <= b.len(),
        forall|i: int|
            0 <= i < n ==> views(a[i].key@) == views(b[i].key@) && a[i].entry@ == b[i].entry@,
    ensures
        slots_map(a, n) == slots_map(b, n),
    decreases n,
{
    if n > 0 {
        lemma_slots_map_same(a, b, (n - 1) as nat);
    }
}

/// Putting a new entry into slot `at` is inserting it into the map under
/// the key of that slot.
proof fn lemma_slots_map_replace(a: Seq<Slot>, b: Seq<Slot>, at: int, n: nat)
    requires
        distinct(a),
        a.len() == b.len(),
        0 <= at < a.len(),
        n <= a.len(),
        forall|i: int| 0 <= i < a.len() ==> views(a[i].key@) == views(#[trigger] b[i].key@),
        forall|i: int| 0 <= i < a.len() && i != at ==> a[i].entry@ == (#[trigger] b[i]).entry@,
    ensures
        at < n ==> slots_map(b, n) == slots_map(a, n).insert(views(a[at].key@), b[at].entry@),
        at >= n ==> slots_map(b, n) == slots_map(a, n),
        distinct(b),
    decreases n,
{
    assert(distinct(b)) by {
        assert forall|i: int, j: int| 0 <= i < j < b.len() implies views(
            #[trigger] b[i].key@,
        ) != views(#[trigger] b[j].key@) by {
            assert(views(a[i].key@) != views(a[j].key@));
        }
    }
    if n > 0 {
        lemma_slots_map_replace(a, b, at, (n - 1) as nat);
        let key = views(a[at].key@);
        if at == n - 1 {
            assert(slots_map(b, n) =~= slots_map(a, n).insert(key, b[at].entry@));
        } else if at < n - 1 {
            assert(views(a[at].key@) != views(a[n - 1].key@));
            assert(slots_map(b, n) =~= slots_map(a, n).insert(key, b[at].entry@));
        }
    }
}

/// A cache of answers, kept under the question vector they came for.
pub struct Cache {
    slots: Vec<Slot>,
}

/// Whether two question vectors hold the same questions in the same order.
fn same_questions(a: &[Question], b: &[Question]) -> (r: bool)
    ensures
        r == (views(a@) == views(b@)),
{
    if a.len() != b.len() {
        assert(views(a@).len() != views(b@).len());
        return false;
    }
    let n = a.len();
    let mut i: usize = 0;
    while i < n
        invariant
            i <= n,
            n == a@.len(),
            n == b@.len(),
            forall|j: int| 0 <= j < i ==> a@[j]@ == b@[j]@,
        decreases n - i,
    {
        if !(a[i].name == b[i].name && a[i].qtype == b[i].qtype) {
            assert(views(a@)[i as int] != views(b@)[i as int]);
            return false;
        }
        i += 1;
    }
    assert(views(a@) =~= views(b@));
    true
}

/// The response that a cache of `map` gives at `now` to the request of
/// `request`, if it gives one.
pub open spec fn cache_response(map: CacheView, request: Seq<u8>, now: u64) -> Option<Seq<u8>> {
    match packet_at(request, window(request.len()), 0, false) {
        Err(_) => None,
        Ok((query, _)) => {
            if !map.dom().contains(query.questions) {
                None
            } else if expired(map[query.questions], now) {
                None
            } else {
                let response = response_packet(query, map[query.questions].answers);
                if packet_error(response, BUF_LEN as int) is Some {
                    None
                } else {
                    Some(packet_wire(response))
                }
            }
        },
    }
}

/// The packet that answers `query` with `answers`: the header of the query,
/// marked as a response with recursion available and with the counts of
/// the sections, then the sections of the query with `answers` as the
/// answer section.
pub open spec fn response_packet(query: PacketView, answers: Seq<AnswerView>) -> PacketView {
    let filled = PacketView {
        header: Header { response: true, recursion_available: true, ..query.header },
        answers,
        ..query
    };
    PacketView { header: counted(filled), ..filled }
}

/// The cache that `map` becomes when the response of `response` is handed
/// to it at `now`.
pub open spec fn cache_update(map: CacheView, response: Seq<u8>, now: u64) -> CacheView {
    match packet_at(response, window(response.len()), 0, true) {
        Err(_) => map,
        Ok((packet, _)) => map.insert(
            packet.questions,
            EntryView { answers: packet.answers, creation: now },
        ),
    }
}

/// A section that was read holds as many entries as were asked for.
pub proof fn lemma_answers_count(b: Seq<u8>, limit: int, pos: int, n: nat)
    ensures
        answers_at(b, limit, pos, n) matches Ok((items, _)) ==> items.len() == n,
    decreases n,
{
    reveal(answers_at);
    if n > 0 {
        if let Ok((_, next)) = answer_at(b, limit, pos) {
            lemma_answers_count(b, limit, next, (n - 1) as nat);
        }
    }
}

/// A response that was handed to the cache is given back for a request
/// with its questions as long as it is younger than the time to live of
/// each of its answers: the cache answers the request with the answers of
/// the response where that fits into 512 bytes, and the answer count of
/// what it gives is the number of those answers.
pub proof fn lemma_set_then_get(
    map: CacheView,
    response: Seq<u8>,
    request: Seq<u8>,
    set_at: u64,
    now: u64,
)
    requires
        packet_at(response, window(response.len()), 0, true) is Ok,
        packet_at(request, window(request.len()), 0, false) is Ok,
        packet_at(request, window(request.len()), 0, false)->Ok_0.0.questions == packet_at(
            response,
            window(response.len()),
            0,
            true,
        )->Ok_0.0.questions,
        forall|i: int|
            0 <= i < packet_at(response, window(response.len()), 0, true)->Ok_0.0.answers.len()
                ==> age_secs(set_at, now) < (#[trigger] packet_at(
                response,
                window(response.len()),
                0,
                true,
            )->Ok_0.0.answers[i]).ttl,
    ensures
        ({
            let kept = packet_at(response, window(response.len()), 0, true)->Ok_0.0;
            let query = packet_at(request, window(request.len()), 0, false)->Ok_0.0;
            let answer = response_packet(query, kept.answers);
            let out = cache_response(cache_update(map, response, set_at), request, now);
            &&& out == if packet_error(answer, BUF_LEN as int) is None {
                Some(packet_wire(answer))
            } else {
                None
            }
            &&& out matches Some(bytes) ==> bytes.len() >= HEADER_LEN && header_at(
                bytes,
                0,
            ).answers == kept.answers.len()
        }),
{
    let limit = window(response.len());
    let kept = packet_at(response, limit, 0, true)->Ok_0.0;
    let query = packet_at(request, window(request.len()), 0, false)->Ok_0.0;
    let answer = response_packet(query, kept.answers);
    let header = header_at(response, 0);
    let first = questions_at(response, limit, HEADER_LEN as int, header.questions as nat);
    lemma_answers_count(response, limit, first->Ok_0.1, header.answers as nat);
    assert(kept.answers.len() == header.answers);
    let wire = packet_wire(answer);
    crate::dns::header::lemma_be16_round_trip(answer.header.answers);
    assert(wire.len() >= HEADER_LEN);
    assert(wire[6] == be16_bytes(answer.header.answers)[0]);
    assert(wire[7] == be16_bytes(answer.header.answers)[1]);
}

/// An entry that is expired stays expired as time goes on.
pub proof fn lemma_expired_stays(entry: EntryView, now: u64, later: u64)
    requires
        expired(entry, now),
        now <= later,
    ensures
        expired(entry, later),
{
    let i = choose|i: int|
        0 <= i < entry.answers.len() && age_secs(entry.creation, now)
            >= (#[trigger] entry.answers[i]).ttl;
    assert(age_secs(entry.creation, now) <= age_secs(entry.creation, later)) by {
        if now >= entry.creation {
            let x = (now - entry.creation) as int;
            let y = (later - entry.creation) as int;
            assert(x / 1_000_000_000 <= y / 1_000_000_000) by (nonlinear_arith)
                requires
                    0 <= x <= y,
            ;
        }
    }
    assert(age_secs(entry.creation, later) >= entry.answers[i].ttl);
}

/// As soon as the answers that are kept for a request have reached the
/// time to live of one of them, the cache gives nothing for the request,
/// and goes on giving nothing until a response is handed to it again.
pub proof fn lemma_expired_gives_nothing(map: CacheView, request: Seq<u8>, now: u64, later: u64)
    requires
        packet_at(request, window(request.len()), 0, false) is Ok,
        map.dom().contains(packet_at(request, window(request.len()), 0, false)->Ok_0.0.questions),
        expired(map[packet_at(request, window(request.len()), 0, false)->Ok_0.0.questions], now),
        now <= later,
    ensures
        cache_response(map, request, later) is None,
{
    let key = packet_at(request, window(request.len()), 0, false)->Ok_0.0.questions;
    lemma_expired_stays(map[key], now, later);
}

/// A request for which nothing is kept, or which cannot be read, is given
/// nothing.
pub proof fn lemma_miss_gives_nothing(map: CacheView, request: Seq<u8>, now: u64)
    requires
        match packet_at(request, window(request.len()), 0, false) {
            Ok((query, _)) => !map.dom().contains(query.questions),
            Err(_) => true,
        },
    ensures
        cache_response(map, request, now) is None,
{
}

impl View for Cache {
    type V = CacheView;

    closed spec fn view(&self) -> CacheView {
        slots_map(self.slots@, self.slots@.len())
    }
}

impl Cache {
    /// No question vector is kept twice.
    pub closed spec fn wf(&self) -> bool {
        distinct(self.slots@)
    }

    /// An empty cache.
    pub fn new() -> (cache: Self)
        ensures
            cache.wf(),
            cache@ == Map::<Seq<QuestionView>, EntryView>::empty(),
    {
        Self { slots: Vec::new() }
    }

    /// The slot that is kept for `key`, if there is one.
    fn find(&self, key: &[Question]) -> (r: Option<usize>)
        requires
            self.wf(),
        ensures
            r is Some <==> self@.dom().contains(views(key@)),
            r is Some ==> r->Some_0 < self.slots@.len() && self.slots@[r->Some_0 as int].entry@
                == self@[views(key@)] && views(self.slots@[r->Some_0 as int].key@) == views(key@),
    {
        let n = self.slots.len();
        let mut i: usize = 0;
        while i < n
            invariant
                i <= n,
                n == self.slots@.len(),
                self.wf(),
                forall|j: int| 0 <= j < i ==> views(#[trigger] self.slots@[j].key@) != views(key@),
            decreases n - i,
        {
            if same_questions(self.slots[i].key.as_slice(), key) {
                proof {
                    lemma_slots_map_entry(self.slots@, self.slots@.len(), i as int);
                }
                return Some(i);
            }
            i += 1;
        }
        proof {
            lemma_slots_map_dom(self.slots@, self.slots@.len(), views(key@));
        }
        None
    }

    /// Hands the cache a response that came at `now`. Where it can be read
    /// as a packet, its answers are kept under its questions, in place of
    /// what was kept for them before. The authorities and the additional
    /// records are not kept.
    pub fn set(&mut self, buf: &mut [u8], now: u64)
        requires
            old(self).wf(),
        ensures
            final(self).wf(),
            final(buf)@ == old(buf)@,
            final(self)@ == cache_update(old(self)@, old(buf)@, now),
    {
        let mut packet = Packet::new();
        let mut dns_buf = Buf::new(buf);
        let r = packet.read(&mut dns_buf);
        if r.is_ok() {
            assert(views(packet.questions@) =~= packet@.questions);
            let found = self.find(packet.questions.as_slice());
            let entry = CacheEntry::new(packet.answers, now);
            let slot = Slot { key: packet.questions, entry };
            let ghost before = self.slots@;
            match found {
                Some(at) => {
                    proof {
                        lemma_slots_map_replace(
                            before,
                            before.update(at as int, slot),
                            at as int,
                            before.len(),
                        );
                    }
                    self.slots[at] = slot;
                },
                None => {
                    proof {
                        lemma_slots_map_dom(before, before.len(), views(slot.key@));
                        lemma_slots_map_same(before, before.push(slot), before.len());
                    }
                    self.slots.push(slot);
                },
            }
        }
    }

    /// The response that the cache gives to the request in `buf` at `now`:
    /// the request with the answers that are kept for its questions, where
    /// the request can be read, answers are kept for it that are not
    /// expired, and the response fits into 512 bytes. The cache does not
    /// change.
    pub fn get(&self, buf: &mut [u8], now: u64) -> (r: Option<Vec<u8>>)
        requires
            self.wf(),
        ensures
            final(buf)@ == old(buf)@,
            match cache_response(self@, old(buf)@, now) {
                Some(bytes) => r is Some && r->Some_0@ == bytes,
                None => r is None,
            },
            r is Some ==> r->Some_0@.len() <= BUF_LEN,
    {
        let ghost request = buf@;
        let ghost parsed = packet_at(request, window(request.len()), 0, false);
        let mut packet = Packet::new_ref();
        let mut dns_buf = Buf::new(buf);
        let r = packet.read(&mut dns_buf);
        if r.is_err() {
            return None;
        }
        let ghost query = parsed->Ok_0.0;
        proof {
            assert(views(packet.questions@) =~= query.questions);
            assert(views(packet.authorities@) =~= query.authorities);
            assert(views(packet.resources@) =~= query.resources);
            assert(packet.header == query.header);
        }
        let at = self.find(packet.questions.as_slice())?;
        let entry = &self.slots[at].entry;
        if entry.is_expired(now) {
            return None;
        }
        packet.answers = entry.answers();
        packet.header.response = true;
        packet.header.recursion_available = true;
        let ghost response = response_packet(query, self@[query.questions].answers);

        let mut out = [0u8; BUF_LEN];
        let ghost blank = out@;
        let mut out_buf = Buf::new(&mut out);
        let r = packet.write(&mut out_buf);
        proof {
            assert(packet@.questions == response.questions);
            assert(packet@.answers == response.answers);
            assert(packet@.authorities == response.authorities);
            assert(packet@.resources == response.resources);
            assert(packet@.header == response.header);
            assert(packet@ == response);
        }
        match r {
            Ok(_) => {
                let bytes = slice_to_vec(out_buf.as_slice());
                proof {
                    lemma_overwrite_reads(blank, 0, packet_wire(response));
                }
                Some(bytes)
            },
            Err(_) => None,
        }
    }
}

} // verus!
