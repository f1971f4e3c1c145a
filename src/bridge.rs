//! The per-session byte bridge: fans pseudo-terminal output out to every
//! attached link and serialises link input into one stream for the terminal.
//! Transport is the caller's: the bridge records what each link is owed.
use vstd::prelude::*;

use crate::history::{History, keep_last, lemma_keep_last_append};

verus! {

/// One attached link: the output owed to it and not yet taken, and whether it
/// has been handed the end-of-stream marker.
pub ghost struct LinkView {
    pub id: u64,
    /// Output owed to the link and not yet taken, oldest first.
    pub received: Seq<u8>,
    pub ended: bool,
}

impl LinkView {
    pub open spec fn deliver(self, data: Seq<u8>) -> LinkView {
        LinkView { received: self.received + data, ..self }
    }

    pub open spec fn end(self) -> LinkView {
        LinkView { ended: true, ..self }
    }
}

/// The abstract state of a bridge.
pub ghost struct BridgeView {
    pub links: Seq<LinkView>,
    pub history: Seq<u8>,
    pub cap: nat,
    pub to_pty: Seq<u8>,
    pub closed: bool,
    /// Links detached while their connection stays open: they are still owed
    /// the end-of-stream marker when the session ends.
    pub parted: Seq<u64>,
}

/// `s` with every `id` left out.
pub open spec fn without(s: Seq<u64>, id: u64) -> Seq<u64>
    decreases s.len(),
{
    if s.len() == 0 {
        Seq::empty()
    } else if s.last() == id {
        without(s.drop_last(), id)
    } else {
        without(s.drop_last(), id).push(s.last())
    }
}

pub open spec fn has_link(links: Seq<LinkView>, id: u64) -> bool {
    exists|i: int| 0 <= i < links.len() && #[trigger] links[i].id == id
}

pub open spec fn ids_unique(links: Seq<LinkView>) -> bool {
    forall|i: int, j: int|
        0 <= i < links.len() && 0 <= j < links.len() && #[trigger] links[i].id == #[trigger] links[j].id
            ==> i == j
}

/// The position of the link `id` (meaningful when `has_link(links, id)`).
pub open spec fn link_index(links: Seq<LinkView>, id: u64) -> int {
    choose|i: int| 0 <= i < links.len() && #[trigger] links[i].id == id
}

impl BridgeView {
    pub open spec fn wf(self) -> bool {
        ids_unique(self.links) && self.history.len() <= self.cap
    }

    /// A new link starts with the retained history; a closed bridge or a
    /// duplicate id leaves the state as it was.
    pub open spec fn attach(self, id: u64) -> BridgeView {
        if self.closed || has_link(self.links, id) {
            self
        } else {
            BridgeView {
                links: self.links.push(LinkView { id, received: self.history, ended: false }),
                ..self
            }
        }
    }

    /// The link stops receiving output and sending input; it is still owed the
    /// end-of-stream marker.
    pub open spec fn detach(self, id: u64) -> BridgeView {
        if has_link(self.links, id) {
            BridgeView {
                links: self.links.remove(link_index(self.links, id)),
                parted: self.parted.push(id),
                ..self
            }
        } else {
            self
        }
    }

    /// The link's connection is gone: nothing more is owed to it.
    pub open spec fn disconnect(self, id: u64) -> BridgeView {
        BridgeView {
            links: if has_link(self.links, id) {
                self.links.remove(link_index(self.links, id))
            } else {
                self.links
            },
            parted: without(self.parted, id),
            ..self
        }
    }

    /// Whether link `id` has been handed the end-of-stream marker: `None` when
    /// the bridge owes it nothing at all.
    pub open spec fn link_ended(self, id: u64) -> Option<bool> {
        if has_link(self.links, id) {
            Some(self.links[link_index(self.links, id)].ended)
        } else if self.parted.contains(id) {
            Some(self.closed)
        } else {
            None
        }
    }

    /// Input from an attached link goes to the terminal after all earlier input.
    pub open spec fn input(self, id: u64, data: Seq<u8>) -> BridgeView {
        if !self.closed && has_link(self.links, id) {
            BridgeView { to_pty: self.to_pty + data, ..self }
        } else {
            self
        }
    }

    /// Output reaches every attached link once and enters the history.
    pub open spec fn output(self, data: Seq<u8>) -> BridgeView {
        if self.closed {
            self
        } else {
            BridgeView {
                links: self.links.map_values(|l: LinkView| l.deliver(data)),
                history: keep_last(self.history + data, self.cap),
                ..self
            }
        }
    }

    /// The bytes owed to link `id` are handed over and it owes nothing more.
    pub open spec fn take(self, id: u64) -> BridgeView {
        if has_link(self.links, id) {
            BridgeView {
                links: self.links.update(
                    link_index(self.links, id),
                    LinkView { received: Seq::empty(), ..self.links[link_index(self.links, id)] },
                ),
                ..self
            }
        } else {
            self
        }
    }

    /// Session exit: every attached link gets the end-of-stream marker.
    pub open spec fn close(self) -> BridgeView {
        BridgeView { links: self.links.map_values(|l: LinkView| l.end()), closed: true, ..self }
    }
}

/// One step a bridge can take while its session runs.
pub ghost enum BridgeEvent {
    Attach(u64),
    Detach(u64),
    Input(u64, Seq<u8>),
    Output(Seq<u8>),
}

impl BridgeView {
    pub open spec fn step(self, e: BridgeEvent) -> BridgeView {
        match e {
            BridgeEvent::Attach(id) => self.attach(id),
            BridgeEvent::Detach(id) => self.detach(id),
            BridgeEvent::Input(id, data) => self.input(id, data),
            BridgeEvent::Output(data) => self.output(data),
        }
    }
}

/// The state after the events `es`, taken in order.
pub open spec fn run(b: BridgeView, es: Seq<BridgeEvent>) -> BridgeView
    decreases es.len(),
{
    if es.len() == 0 {
        b
    } else {
        run(b, es.drop_last()).step(es.last())
    }
}

/// The concatenation of `ms`, first to last.
pub open spec fn concat(ms: Seq<Seq<u8>>) -> Seq<u8>
    decreases ms.len(),
{
    if ms.len() == 0 {
        Seq::empty()
    } else {
        concat(ms.drop_last()) + ms.last()
    }
}

/// The output bytes among `es`, in order.
pub open spec fn outputs(es: Seq<BridgeEvent>) -> Seq<u8>
    decreases es.len(),
{
    if es.len() == 0 {
        Seq::empty()
    } else {
        match es.last() {
            BridgeEvent::Output(data) => outputs(es.drop_last()) + data,
            _ => outputs(es.drop_last()),
        }
    }
}

/// Link `id` sending each of `msgs` in turn.
pub open spec fn send_all(b: BridgeView, id: u64, msgs: Seq<Seq<u8>>) -> BridgeView
    decreases msgs.len(),
{
    if msgs.len() == 0 {
        b
    } else {
        send_all(b, id, msgs.drop_last()).input(id, msgs.last())
    }
}

/// The session producing each of `msgs` in turn.
pub open spec fn output_all(b: BridgeView, msgs: Seq<Seq<u8>>) -> BridgeView
    decreases msgs.len(),
{
    if msgs.len() == 0 {
        b
    } else {
        output_all(b, msgs.drop_last()).output(msgs.last())
    }
}

/// A link attaching after a run of output is handed the most recent bytes of
/// that output, at most the history's capacity of them, the oldest dropped.
pub proof fn lemma_late_attach_sees_recent(b: BridgeView, msgs: Seq<Seq<u8>>, id: u64)
    requires
        b.wf(),
        !b.closed,
        !has_link(b.links, id),
    ensures
        has_link(output_all(b, msgs).attach(id).links, id),
        output_all(b, msgs).attach(id).links.last().id == id,
        output_all(b, msgs).attach(id).links.last().received == keep_last(
            b.history + concat(msgs),
            b.cap,
        ),
{
    lemma_output_all(b, msgs, id);
    let p = output_all(b, msgs);
    let q = p.attach(id);
    assert(q.links.last().id == id);
    assert(q.links[q.links.len() - 1].id == id);
}

proof fn lemma_output_all(b: BridgeView, msgs: Seq<Seq<u8>>, id: u64)
    requires
        b.wf(),
        !b.closed,
        !has_link(b.links, id),
    ensures
        !output_all(b, msgs).closed,
        output_all(b, msgs).cap == b.cap,
        output_all(b, msgs).history == keep_last(b.history + concat(msgs), b.cap),
        !has_link(output_all(b, msgs).links, id),
    decreases msgs.len(),
{
    if msgs.len() == 0 {
        assert(b.history + concat(msgs) =~= b.history);
    } else {
        lemma_output_all(b, msgs.drop_last(), id);
        let p = output_all(b, msgs.drop_last());
        let m = msgs.last();
        lemma_keep_last_append(b.history + concat(msgs.drop_last()), m, b.cap);
        assert(b.history + concat(msgs.drop_last()) + m =~= b.history + concat(msgs));
        let q = p.output(m);
        if has_link(q.links, id) {
            let j = choose|j: int| 0 <= j < q.links.len() && #[trigger] q.links[j].id == id;
            assert(p.links[j].id == id);
        }
    }
}

/// When the session ends, every link it still owes anything (attached, or
/// detached with its connection open) is handed the end-of-stream marker.
pub proof fn lemma_end_of_stream_reaches_owed_links(b: BridgeView, id: u64)
    requires
        b.wf(),
        b.link_ended(id) is Some,
    ensures
        b.close().link_ended(id) == Some(true),
        has_link(b.links, id) ==> b.detach(id).close().link_ended(id) == Some(true),
{
    let c = b.close();
    if has_link(b.links, id) {
        let k = link_index(b.links, id);
        assert(c.links[k].id == id);
        assert(ids_unique(c.links)) by {
            assert forall|i: int, j: int|
                0 <= i < c.links.len() && 0 <= j < c.links.len() && #[trigger] c.links[i].id
                    == #[trigger] c.links[j].id implies i == j by {
                assert(b.links[i].id == b.links[j].id);
            }
        }
        lemma_link_index(c.links, k, id);
        let d = b.detach(id);
        let dc = d.close();
        assert(d.parted.last() == id);
        assert(dc.parted.contains(id)) by {
            assert(dc.parted[dc.parted.len() - 1] == id);
        }
        if has_link(dc.links, id) {
            let j = choose|j: int| 0 <= j < dc.links.len() && #[trigger] dc.links[j].id == id;
            let j2 = if j < k { j } else { j + 1 };
            assert(b.links[j2].id == id);
            assert(b.links[j2].id == b.links[k].id);
        }
    } else {
        if has_link(c.links, id) {
            let j = choose|j: int| 0 <= j < c.links.len() && #[trigger] c.links[j].id == id;
            assert(b.links[j].id == id);
        }
    }
}

/// A link attaching in the middle of a run is handed the retained history
/// and then every byte of later output exactly once, in order, whatever other
/// links do, until it detaches.
pub proof fn lemma_late_link_fan_out(b: BridgeView, es: Seq<BridgeEvent>, id: u64)
    requires
        b.wf(),
        !b.closed,
        !has_link(b.links, id),
        forall|k: int| 0 <= k < es.len() ==> es[k] != BridgeEvent::Detach(id),
    ensures
        has_link(run(b.attach(id), es).links, id),
        run(b.attach(id), es).links[link_index(run(b.attach(id), es).links, id)].received
            == b.history + outputs(es),
{
    let a = b.attach(id);
    lemma_step_wf(b, BridgeEvent::Attach(id));
    assert(a == b.step(BridgeEvent::Attach(id)));
    let k = b.links.len() as int;
    assert(a.links[k].id == id);
    lemma_link_index(a.links, k, id);
    lemma_output_fan_out(a, es, id);
}

/// A link that is not attached, and does not attach during a run, is handed
/// nothing by it: in particular, after detaching it gets no more output.
pub proof fn lemma_absent_link_gets_nothing(b: BridgeView, es: Seq<BridgeEvent>, id: u64)
    requires
        b.wf(),
        !has_link(b.links, id),
        forall|k: int| 0 <= k < es.len() ==> es[k] != BridgeEvent::Attach(id),
    ensures
        run(b, es).wf(),
        !has_link(run(b, es).links, id),
    decreases es.len(),
{
    if es.len() > 0 {
        let es0 = es.drop_last();
        assert forall|k: int| 0 <= k < es0.len() implies es0[k] != BridgeEvent::Attach(id) by {
            assert(es0[k] == es[k]);
        }
        lemma_absent_link_gets_nothing(b, es0, id);
        let p = run(b, es0);
        let e = es.last();
        assert(es[es.len() - 1] == e);
        lemma_step_wf(p, e);
        let q = p.step(e);
        if has_link(q.links, id) {
            let j = choose|j: int| 0 <= j < q.links.len() && #[trigger] q.links[j].id == id;
            match e {
                BridgeEvent::Attach(x) => {
                    if !p.closed && !has_link(p.links, x) && j < p.links.len() {
                        assert(p.links[j].id == id);
                    }
                },
                BridgeEvent::Detach(x) => {
                    if has_link(p.links, x) {
                        let m = link_index(p.links, x);
                        let j2 = if j < m { j } else { j + 1 };
                        assert(p.links[j2].id == id);
                    }
                },
                BridgeEvent::Input(x, data) => {},
                BridgeEvent::Output(data) => {
                    if !p.closed {
                        assert(p.links[j].id == id);
                    }
                },
            }
        }
    }
}

proof fn lemma_without_push_same(s: Seq<u64>, id: u64)
    ensures
        without(s.push(id), id) == without(s, id),
{
    assert(s.push(id).drop_last() =~= s);
}

proof fn lemma_link_index(links: Seq<LinkView>, k: int, id: u64)
    requires
        ids_unique(links),
        0 <= k < links.len(),
        links[k].id == id,
    ensures
        has_link(links, id),
        link_index(links, id) == k,
{
    let j = link_index(links, id);
    assert(links[j].id == links[k].id);
}

proof fn lemma_step_wf(b: BridgeView, e: BridgeEvent)
    requires
        b.wf(),
    ensures
        b.step(e).wf(),
        b.step(e).closed == b.closed,
{
    let ls = b.links;
    let n = b.step(e).links;
    match e {
        BridgeEvent::Attach(id) => {
            if !b.closed && !has_link(ls, id) {
                assert forall|i: int, j: int|
                    0 <= i < n.len() && 0 <= j < n.len() && #[trigger] n[i].id == #[trigger] n[j].id
                        implies i == j by {
                    if i < ls.len() && j < ls.len() {
                        assert(ls[i].id == ls[j].id);
                    } else if i < ls.len() {
                        assert(ls[i].id == id);
                    } else if j < ls.len() {
                        assert(ls[j].id == id);
                    }
                }
            }
        },
        BridgeEvent::Detach(id) => {
            if has_link(ls, id) {
                let m = link_index(ls, id);
                assert forall|i: int, j: int|
                    0 <= i < n.len() && 0 <= j < n.len() && #[trigger] n[i].id == #[trigger] n[j].id
                        implies i == j by {
                    let i2 = if i < m { i } else { i + 1 };
                    let j2 = if j < m { j } else { j + 1 };
                    assert(n[i] == ls[i2]);
                    assert(n[j] == ls[j2]);
                    assert(ls[i2].id == ls[j2].id);
                }
            }
        },
        BridgeEvent::Input(id, data) => {},
        BridgeEvent::Output(data) => {
            if !b.closed {
                assert forall|i: int, j: int|
                    0 <= i < n.len() && 0 <= j < n.len() && #[trigger] n[i].id == #[trigger] n[j].id
                        implies i == j by {
                    assert(ls[i].id == ls[j].id);
                }
            }
        },
    }
}

/// Input from one attached link reaches the terminal as the concatenation of
/// its messages in the order sent.
pub proof fn lemma_input_in_send_order(b: BridgeView, id: u64, msgs: Seq<Seq<u8>>)
    requires
        b.wf(),
        !b.closed,
        has_link(b.links, id),
    ensures
        send_all(b, id, msgs).to_pty == b.to_pty + concat(msgs),
        send_all(b, id, msgs).links == b.links,
        send_all(b, id, msgs).closed == b.closed,
    decreases msgs.len(),
{
    if msgs.len() == 0 {
        assert(b.to_pty + concat(msgs) =~= b.to_pty);
    } else {
        lemma_input_in_send_order(b, id, msgs.drop_last());
        assert(b.to_pty + concat(msgs.drop_last()) + msgs.last() =~= b.to_pty + concat(msgs));
    }
}

/// A link attached before a run of events and not detached during it is handed
/// every byte of output in the run exactly once, in order, whatever other
/// links attach, detach or send meanwhile.
pub proof fn lemma_output_fan_out(b: BridgeView, es: Seq<BridgeEvent>, id: u64)
    requires
        b.wf(),
        !b.closed,
        has_link(b.links, id),
        forall|k: int| 0 <= k < es.len() ==> es[k] != BridgeEvent::Detach(id),
    ensures
        run(b, es).wf(),
        !run(b, es).closed,
        has_link(run(b, es).links, id),
        run(b, es).links[link_index(run(b, es).links, id)].received == b.links[link_index(
            b.links,
            id,
        )].received + outputs(es),
    decreases es.len(),
{
    if es.len() == 0 {
        assert(b.links[link_index(b.links, id)].received + outputs(es) =~= b.links[link_index(
            b.links,
            id,
        )].received);
    } else {
        let es0 = es.drop_last();
        assert forall|k: int| 0 <= k < es0.len() implies es0[k] != BridgeEvent::Detach(id) by {
            assert(es0[k] == es[k]);
        }
        lemma_output_fan_out(b, es0, id);
        let p = run(b, es0);
        let e = es.last();
        lemma_step_wf(p, e);
        let q = p.step(e);
        let ls = p.links;
        let k = link_index(ls, id);
        let start = b.links[link_index(b.links, id)].received;
        assert(ls[k].received == start + outputs(es0));
        match e {
            BridgeEvent::Attach(x) => {
                if !p.closed && !has_link(ls, x) {
                    assert(q.links[k] == ls[k]);
                    lemma_link_index(q.links, k, id);
                }
                assert(outputs(es) == outputs(es0));
            },
            BridgeEvent::Detach(x) => {
                assert(es[es.len() - 1] == e);
                if has_link(ls, x) {
                    let m = link_index(ls, x);
                    assert(m != k);
                    let k2 = if k < m { k } else { k - 1 };
                    assert(q.links[k2] == ls[k]);
                    lemma_link_index(q.links, k2, id);
                }
                assert(outputs(es) == outputs(es0));
            },
            BridgeEvent::Input(x, data) => {
                assert(outputs(es) == outputs(es0));
            },
            BridgeEvent::Output(data) => {
                assert(q.links[k] == ls[k].deliver(data));
                lemma_link_index(q.links, k, id);
                assert(outputs(es) == outputs(es0) + data);
                assert(start + outputs(es0) + data =~= start + outputs(es));
            },
        }
    }
}

struct Link {
    id: u64,
    received: Vec<u8>,
    ended: bool,
}

impl Link {
    closed spec fn view(&self) -> LinkView {
        LinkView { id: self.id, received: self.received@, ended: self.ended }
    }
}

fn append_bytes(dst: &mut Vec<u8>, src: &[u8])
    ensures
        final(dst)@ == old(dst)@ + src@,
{
    let mut i: usize = 0;
    while i < src.len()
        invariant
            i <= src@.len(),
            dst@ == old(dst)@ + src@.subrange(0, i as int),
        decreases src@.len() - i,
    {
        dst.push(src[i]);
        assert(dst@ =~= old(dst)@ + src@.subrange(0, i + 1));
        i = i + 1;
    }
    assert(src@.subrange(0, src@.len() as int) =~= src@);
}

/// A session's duplex byte pump.
pub struct Bridge {
    links: Vec<Link>,
    history: History,
    to_pty: Vec<u8>,
    closed: bool,
    parted: Vec<u64>,
}

impl Bridge {
    pub closed spec fn view(&self) -> BridgeView {
        BridgeView {
            links: self.links@.map_values(|l: Link| l.view()),
            history: self.history@,
            cap: self.history.capacity(),
            to_pty: self.to_pty@,
            closed: self.closed,
            parted: self.parted@,
        }
    }

    pub closed spec fn wf(&self) -> bool {
        self.history.wf() && self@.wf()
    }

    pub proof fn lemma_wf(&self)
        requires
            self.wf(),
        ensures
            self@.wf(),
    {
    }

    /// A bridge with no links that retains up to `history_cap` bytes of output.
    pub fn new(history_cap: usize) -> (b: Bridge)
        ensures
            b.wf(),
            b@.links == Seq::<LinkView>::empty(),
            b@.history == Seq::<u8>::empty(),
            b@.cap == history_cap,
            b@.to_pty == Seq::<u8>::empty(),
            b@.parted == Seq::<u64>::empty(),
            !b@.closed,
    {
        let b = Bridge {
            links: Vec::new(),
            history: History::new(history_cap),
            to_pty: Vec::new(),
            closed: false,
            parted: Vec::new(),
        };
        assert(b@.links =~= Seq::<LinkView>::empty());
        b
    }

    fn find(&self, id: u64) -> (r: Option<usize>)
        requires
            self.wf(),
        ensures
            match r {
                Some(i) => i < self@.links.len() && self@.links[i as int].id == id && i
                    == link_index(self@.links, id) && has_link(self@.links, id),
                None => !has_link(self@.links, id),
            },
    {
        let mut i: usize = 0;
        while i < self.links.len()
            invariant
                self.wf(),
                i <= self.links@.len(),
                forall|j: int| 0 <= j < i ==> self.links@[j].id != id,
            decreases self.links@.len() - i,
        {
            if self.links[i].id == id {
                proof {
                    let ls = self@.links;
                    assert(ls[i as int].id == id);
                    let k = link_index(ls, id);
                    assert(ls[k].id == id);
                    assert(ls[i as int].id == ls[k].id);
                }
                return Some(i);
            }
            i = i + 1;
        }
        proof {
            let ls = self@.links;
            assert forall|j: int| 0 <= j < ls.len() implies ls[j].id != id by {
                assert(ls[j].id == self.links@[j].id);
            }
        }
        None
    }

    pub fn is_attached(&self, id: u64) -> (r: bool)
        requires
            self.wf(),
        ensures
            r == has_link(self@.links, id),
    {
        self.find(id).is_some()
    }

    pub fn is_closed(&self) -> (r: bool)
        ensures
            r == self@.closed,
    {
        self.closed
    }

    /// The bytes written to the terminal so far, in order.
    pub fn pty_input(&self) -> (r: Vec<u8>)
        ensures
            r@ == self@.to_pty,
    {
        let mut r: Vec<u8> = Vec::new();
        append_bytes(&mut r, self.to_pty.as_slice());
        r
    }

    /// The retained output history, oldest first.
    pub fn history(&self) -> (r: Vec<u8>)
        ensures
            r@ == self@.history,
    {
        self.history.contents()
    }

    /// The output owed to link `id` and not yet taken, or `None` when it is
    /// not attached.
    pub fn received(&self, id: u64) -> (r: Option<Vec<u8>>)
        requires
            self.wf(),
        ensures
            match r {
                Some(v) => has_link(self@.links, id) && v@ == self@.links[link_index(
                    self@.links,
                    id,
                )].received,
                None => !has_link(self@.links, id),
            },
    {
        match self.find(id) {
            Some(i) => {
                let mut r: Vec<u8> = Vec::new();
                append_bytes(&mut r, self.links[i].received.as_slice());
                Some(r)
            },
            None => None,
        }
    }

    /// Whether link `id`, attached or detached with its connection open, has
    /// been handed the end-of-stream marker; `None` when nothing is owed to it.
    pub fn ended(&self, id: u64) -> (r: Option<bool>)
        requires
            self.wf(),
        ensures
            r == self@.link_ended(id),
    {
        match self.find(id) {
            Some(i) => Some(self.links[i].ended),
            None => {
                let mut j: usize = 0;
                while j < self.parted.len()
                    invariant
                        j <= self.parted@.len(),
                        !has_link(self@.links, id),
                        forall|k: int| 0 <= k < j ==> self.parted@[k] != id,
                    decreases self.parted@.len() - j,
                {
                    if self.parted[j] == id {
                        assert(self@.parted[j as int] == id);
                        assert(self@.parted.contains(id));
                        return Some(self.closed);
                    }
                    j = j + 1;
                }
                assert(!self@.parted.contains(id));
                None
            },
        }
    }
    /// Attaches link `id`, which is handed the retained history at once.
    /// Returns false, changing nothing, when the bridge is closed or `id` is
    /// already attached.
    pub fn attach(&mut self, id: u64) -> (r: bool)
        requires
            old(self).wf(),
        ensures
            final(self).wf(),
            final(self)@ == old(self)@.attach(id),
            r == (!old(self)@.closed && !has_link(old(self)@.links, id)),
    {
        if self.closed || self.find(id).is_some() {
            return false;
        }
        let received = self.history.contents();
        let link = Link { id, received, ended: false };
        self.links.push(link);
        proof {
            let ls = self@.links;
            let ol = old(self)@.links;
            assert(ls =~= ol.push(LinkView { id, received: old(self)@.history, ended: false }));
            assert forall|i: int, j: int|
                0 <= i < ls.len() && 0 <= j < ls.len() && #[trigger] ls[i].id == #[trigger] ls[j].id
                    implies i == j by {
                if i < ol.len() && j < ol.len() {
                    assert(ol[i].id == ol[j].id);
                } else if i < ol.len() {
                    assert(ol[i].id == id);
                } else if j < ol.len() {
                    assert(ol[j].id == id);
                }
            }
        }
        true
    }

    /// Detaches link `id`: it gets no more output and sends no more input, but
    /// is still owed the end-of-stream marker until its connection goes. The
    /// session itself is untouched. Returns whether `id` was attached.
    pub fn detach(&mut self, id: u64) -> (r: bool)
        requires
            old(self).wf(),
        ensures
            final(self).wf(),
            final(self)@ == old(self)@.detach(id),
            r == has_link(old(self)@.links, id),
    {
        match self.find(id) {
            Some(i) => {
                self.links.remove(i);
                self.parted.push(id);
                proof {
                    let ls = self@.links;
                    let ol = old(self)@.links;
                    assert(ls =~= ol.remove(i as int));
                    assert forall|a: int, b: int|
                        0 <= a < ls.len() && 0 <= b < ls.len() && #[trigger] ls[a].id
                            == #[trigger] ls[b].id implies a == b by {
                        let a2 = if a < i { a } else { a + 1 };
                        let b2 = if b < i { b } else { b + 1 };
                        assert(ls[a] == ol[a2]);
                        assert(ls[b] == ol[b2]);
                        assert(ol[a2].id == ol[b2].id);
                    }
                }
                true
            },
            None => false,
        }
    }

    /// The connection of link `id` is gone: drops the link, attached or
    /// detached, so that nothing more is owed to it.
    pub fn disconnect(&mut self, id: u64)
        requires
            old(self).wf(),
        ensures
            final(self).wf(),
            final(self)@ == old(self)@.disconnect(id),
    {
        if self.find(id).is_some() {
            self.detach(id);
        }
        let ghost mid = self.parted@;
        let ghost src = old(self)@.parted;
        let mut kept: Vec<u64> = Vec::new();
        let mut j: usize = 0;
        while j < self.parted.len()
            invariant
                j <= self.parted@.len(),
                mid == self.parted@,
                kept@ == without(mid.subrange(0, j as int), id),
            decreases self.parted@.len() - j,
        {
            let x = self.parted[j];
            if x != id {
                kept.push(x);
            }
            proof {
                let t = mid.subrange(0, j + 1);
                assert(t.drop_last() =~= mid.subrange(0, j as int));
            }
            j = j + 1;
        }
        proof {
            assert(mid.subrange(0, mid.len() as int) =~= mid);
            if has_link(old(self)@.links, id) {
                lemma_without_push_same(src, id);
            }
        }
        self.parted = kept;
        proof {
            let ol = old(self)@;
            assert(self@.links == ol.disconnect(id).links);
        }
    }

    /// Writes `data` from link `id` to the terminal, after all earlier input.
    /// Returns false, changing nothing, when the bridge is closed or `id` is
    /// not attached.
    pub fn input(&mut self, id: u64, data: &[u8]) -> (r: bool)
        requires
            old(self).wf(),
        ensures
            final(self).wf(),
            final(self)@ == old(self)@.input(id, data@),
            r == (!old(self)@.closed && has_link(old(self)@.links, id)),
    {
        if self.closed || self.find(id).is_none() {
            return false;
        }
        append_bytes(&mut self.to_pty, data);
        assert(self@.links =~= old(self)@.links);
        true
    }

    /// Hands terminal output to every attached link and to the history.
    /// Output after the bridge closed is dropped.
    pub fn output(&mut self, data: &[u8])
        requires
            old(self).wf(),
        ensures
            final(self).wf(),
            final(self)@ == old(self)@.output(data@),
    {
        if self.closed {
            return;
        }
        self.history.push(data);
        let ghost ol = old(self)@.links;
        let mut i: usize = 0;
        while i < self.links.len()
            invariant
                self.history.wf(),
                self.history@ == keep_last(old(self)@.history + data@, old(self)@.cap),
                self.history.capacity() == old(self)@.cap,
                self.to_pty == old(self).to_pty,
                self.parted == old(self).parted,
                self.closed == old(self).closed,
                ol == old(self)@.links,
                self.links@.len() == ol.len(),
                i <= ol.len(),
                forall|j: int| 0 <= j < i ==> #[trigger] self.links@[j].view() == ol[j].deliver(data@),
                forall|j: int| i <= j < ol.len() ==> #[trigger] self.links@[j].view() == ol[j],
            decreases ol.len() - i,
        {
            let ghost before = self.links@;
            append_bytes(&mut self.links[i].received, data);
            proof {
                assert(before[i as int].view() == ol[i as int]);
                assert(self.links@[i as int].view() == ol[i as int].deliver(data@));
                assert forall|j: int| 0 <= j < ol.len() && j != i implies self.links@[j]
                    == before[j] by {}
            }
            i = i + 1;
        }
        proof {
            let ls = self@.links;
            assert(ls =~= ol.map_values(|l: LinkView| l.deliver(data@)));
            assert forall|a: int, b: int|
                0 <= a < ls.len() && 0 <= b < ls.len() && #[trigger] ls[a].id == #[trigger] ls[b].id
                    implies a == b by {
                assert(ol[a].id == ol[b].id);
            }
        }
    }

    /// Hands over the bytes link `id` is owed and has not taken yet, oldest
    /// first, or `None` when it is not attached.
    pub fn take(&mut self, id: u64) -> (r: Option<Vec<u8>>)
        requires
            old(self).wf(),
        ensures
            final(self).wf(),
            final(self)@ == old(self)@.take(id),
            match r {
                Some(v) => has_link(old(self)@.links, id) && v@ == old(self)@.links[link_index(
                    old(self)@.links,
                    id,
                )].received,
                None => !has_link(old(self)@.links, id),
            },
    {
        match self.find(id) {
            Some(i) => {
                let ghost before = self.links@;
                let mut out: Vec<u8> = Vec::new();
                std::mem::swap(&mut out, &mut self.links[i].received);
                proof {
                    let ol = old(self)@.links;
                    let ls = self@.links;
                    assert(before[i as int].view() == ol[i as int]);
                    assert(ls =~= ol.update(
                        i as int,
                        LinkView { received: Seq::empty(), ..ol[i as int] },
                    ));
                    assert forall|a: int, b: int|
                        0 <= a < ls.len() && 0 <= b < ls.len() && #[trigger] ls[a].id
                            == #[trigger] ls[b].id implies a == b by {
                        assert(ol[a].id == ol[b].id);
                    }
                }
                Some(out)
            },
            None => None,
        }
    }

    /// Session exit: hands every attached link the end-of-stream marker and
    /// closes the bridge.
    pub fn close(&mut self)
        requires
            old(self).wf(),
        ensures
            final(self).wf(),
            final(self)@ == old(self)@.close(),
    {
        let ghost ol = old(self)@.links;
        let mut i: usize = 0;
        while i < self.links.len()
            invariant
                self.history == old(self).history,
                self.to_pty == old(self).to_pty,
                self.parted == old(self).parted,
                ol == old(self)@.links,
                self.links@.len() == ol.len(),
                i <= ol.len(),
                forall|j: int| 0 <= j < i ==> #[trigger] self.links@[j].view() == ol[j].end(),
                forall|j: int| i <= j < ol.len() ==> #[trigger] self.links@[j].view() == ol[j],
            decreases ol.len() - i,
        {
            let ghost before = self.links@;
            self.links[i].ended = true;
            proof {
                assert(before[i as int].view() == ol[i as int]);
                assert(self.links@[i as int].view() == ol[i as int].end());
                assert forall|j: int| 0 <= j < ol.len() && j != i implies self.links@[j]
                    == before[j] by {}
            }
            i = i + 1;
        }
        self.closed = true;
        proof {
            let ls = self@.links;
            assert(ls =~= ol.map_values(|l: LinkView| l.end()));
            assert forall|a: int, b: int|
                0 <= a < ls.len() && 0 <= b < ls.len() && #[trigger] ls[a].id == #[trigger] ls[b].id
                    implies a == b by {
                assert(ol[a].id == ol[b].id);
            }
        }
    }
}

} // verus!
