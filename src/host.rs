//! The host's decisions: what each connection event does to the registry and
//! which texts go to whom.

use vstd::prelude::*;

use crate::messages::{
    chat_line, chat_text, greeting, greeting_text, join_notice, join_text, leave_notice,
    leave_text, roster, space_joined,
};
use crate::registry::{
    has_id, ids_except, ids_unique, lemma_exclusion, names_except, others, Entry, Participant,
    Registry,
};

verus! {

/// What a connection reports to the host, in the order it happened.
pub enum HostEvent {
    /// A socket was accepted and given `id`; no name is known yet.
    Connected { id: u32 },
    /// The first frame on connection `id` arrived: the display name.
    Joined { id: u32, name: String },
    /// A later frame on connection `id`, of the participant `name`.
    SentMessage { id: u32, name: String, text: String },
    /// Connection `id`, of the participant `name`, failed or closed.
    Exited { id: u32, name: String },
}

/// A text to send to one connection.
pub struct Delivery {
    pub to: u32,
    pub text: String,
}

impl View for Delivery {
    type V = (u32, Seq<char>);

    open spec fn view(&self) -> (u32, Seq<char>) {
        (self.to, self.text@)
    }
}

/// The same text to each of `ids`, in order.
pub open spec fn fan_out(ids: Seq<u32>, text: Seq<char>) -> Seq<(u32, Seq<char>)> {
    ids.map_values(|i: u32| (i, text))
}

/// The registry after `event`, and what is sent, in order.
///
/// A name is taken as given: the host does not check that it is new or free
/// of reserved characters; the client does that against the roster.
pub open spec fn step(reg: Seq<Entry>, event: HostEvent) -> (Seq<Entry>, Seq<(u32, Seq<char>)>) {
    match event {
        HostEvent::Connected { id } => (reg, seq![(id, space_joined(names_except(reg, id)))]),
        HostEvent::Joined { id, name } => if has_id(reg, id) {
            (reg, Seq::empty())
        } else {
            let now = reg.push((id, name@));
            (
                now,
                fan_out(ids_except(now, id), join_text(name@)).push(
                    (id, greeting_text(now.len())),
                ),
            )
        },
        HostEvent::SentMessage { id, name, text } => (
            reg,
            fan_out(ids_except(reg, id), chat_text(name@, text@)),
        ),
        HostEvent::Exited { id, name } => {
            let now = others(reg, id);
            (now, fan_out(ids_except(now, id), leave_text(name@)))
        },
    }
}

/// The deliveries as values.
pub open spec fn deliveries_view(d: Seq<Delivery>) -> Seq<(u32, Seq<char>)> {
    d.map_values(|x: Delivery| x@)
}

/// Sends `text` to each of `ids`, appending to `out`.
fn push_fan_out(out: &mut Vec<Delivery>, ids: &Vec<u32>, text: &String)
    ensures
        deliveries_view(final(out)@) == deliveries_view(old(out)@) + fan_out(ids@, text@),
{
    let ghost start = deliveries_view(out@);
    let mut i: usize = 0;
    while i < ids.len()
        invariant
            0 <= i <= ids@.len(),
            deliveries_view(out@) == start + fan_out(ids@.subrange(0, i as int), text@),
        decreases ids@.len() - i,
    {
        let ghost prev = out@;
        out.push(Delivery { to: ids[i], text: text.clone() });
        assert(deliveries_view(out@) =~= deliveries_view(prev).push((ids@[i as int], text@)));
        assert(fan_out(ids@.subrange(0, i + 1), text@) =~= fan_out(ids@.subrange(0, i as int), text@).push(
            (ids@[i as int], text@),
        ));
        assert(deliveries_view(out@) =~= start + fan_out(ids@.subrange(0, i + 1), text@));
        i = i + 1;
    }
    assert(ids@.subrange(0, i as int) =~= ids@);
}

/// The host's state: the registry, and nothing else.
pub struct Host {
    registry: Registry,
}

impl View for Host {
    type V = Seq<Entry>;

    closed spec fn view(&self) -> Seq<Entry> {
        self.registry@
    }
}

impl Host {
    /// Whether the ids are unique.
    pub closed spec fn wf(&self) -> bool {
        self.registry.wf()
    }

    /// A host with nobody connected.
    pub fn new() -> (r: Host)
        ensures
            r@ == Seq::<Entry>::empty(),
            r.wf(),
    {
        Host { registry: Registry::new() }
    }

    /// The number of registered participants.
    pub fn count(&self) -> (r: usize)
        ensures
            r == self@.len(),
    {
        self.registry.count()
    }

    /// Applies one event and returns what to send, in order.
    pub fn handle(&mut self, event: HostEvent) -> (r: Vec<Delivery>)
        requires
            old(self).wf(),
        ensures
            final(self).wf(),
            (final(self)@, deliveries_view(r@)) == step(old(self)@, event),
    {
        let mut out: Vec<Delivery> = Vec::new();
        assert(deliveries_view(out@) =~= Seq::<(u32, Seq<char>)>::empty());
        match event {
            HostEvent::Connected { id } => {
                let names = self.registry.names_except(id);
                let text = roster(&names);
                out.push(Delivery { to: id, text });
                assert(deliveries_view(out@) =~= seq![(id, text@)]);
            },
            HostEvent::Joined { id, name } => {
                if self.registry.contains(id) {
                    return out;
                }
                let text = join_notice(name.as_str());
                self.registry.add(Participant { id, name });
                let ids = self.registry.ids_except(id);
                push_fan_out(&mut out, &ids, &text);
                let welcome = greeting(self.registry.count());
                let ghost before = out@;
                out.push(Delivery { to: id, text: welcome });
                assert(deliveries_view(out@) =~= deliveries_view(before).push((id, welcome@)));
            },
            HostEvent::SentMessage { id, name, text } => {
                let line = chat_line(name.as_str(), text.as_str());
                let ids = self.registry.ids_except(id);
                push_fan_out(&mut out, &ids, &line);
            },
            HostEvent::Exited { id, name } => {
                let text = leave_notice(name.as_str());
                self.registry.remove(id);
                let ids = self.registry.ids_except(id);
                push_fan_out(&mut out, &ids, &text);
            },
        }
        out
    }
}

/// The id an event is about.
pub open spec fn event_id(e: HostEvent) -> u32 {
    match e {
        HostEvent::Connected { id } => id,
        HostEvent::Joined { id, .. } => id,
        HostEvent::SentMessage { id, .. } => id,
        HostEvent::Exited { id, .. } => id,
    }
}

/// The name an event carries; empty for `Connected`.
pub open spec fn event_name(e: HostEvent) -> Seq<char> {
    match e {
        HostEvent::Connected { .. } => Seq::empty(),
        HostEvent::Joined { name, .. } => name@,
        HostEvent::SentMessage { name, .. } => name@,
        HostEvent::Exited { name, .. } => name@,
    }
}

/// The registry after `events`, starting from `reg`, and everything sent on
/// the way, in order.
pub open spec fn run(reg: Seq<Entry>, events: Seq<HostEvent>) -> (Seq<Entry>, Seq<(u32, Seq<char>)>)
    decreases events.len(),
{
    if events.len() == 0 {
        (reg, Seq::empty())
    } else {
        let before = run(reg, events.drop_last());
        let last = step(before.0, events.last());
        (last.0, before.1 + last.1)
    }
}

/// The texts that `id` is sent among `ds`, in order.
pub open spec fn received(ds: Seq<(u32, Seq<char>)>, id: u32) -> Seq<Seq<char>>
    decreases ds.len(),
{
    if ds.len() == 0 {
        Seq::empty()
    } else {
        let before = received(ds.drop_last(), id);
        if ds.last().0 == id {
            before.push(ds.last().1)
        } else {
            before
        }
    }
}

/// What one connection receives from two runs of deliveries, one after the
/// other.
pub proof fn lemma_received_append(a: Seq<(u32, Seq<char>)>, b: Seq<(u32, Seq<char>)>, id: u32)
    ensures
        received(a + b, id) == received(a, id) + received(b, id),
    decreases b.len(),
{
    if b.len() == 0 {
        assert(a + b =~= a);
        assert(received(a, id) + received(b, id) =~= received(a, id));
    } else {
        lemma_received_append(a, b.drop_last(), id);
        assert((a + b).drop_last() =~= a + b.drop_last());
        assert(received(a + b, id) =~= received(a, id) + received(b, id));
    }
}

/// A fan-out to distinct ids reaches each of them once and nobody else.
proof fn lemma_received_fan_out(ids: Seq<u32>, text: Seq<char>, id: u32)
    requires
        ids.no_duplicates(),
    ensures
        received(fan_out(ids, text), id) == if ids.contains(id) {
            seq![text]
        } else {
            Seq::<Seq<char>>::empty()
        },
    decreases ids.len(),
{
    if ids.len() > 0 {
        let rest = ids.drop_last();
        assert(fan_out(ids, text).drop_last() =~= fan_out(rest, text));
        lemma_received_fan_out(rest, text, id);
        if ids.last() == id {
            assert(ids.contains(id));
            assert(!rest.contains(id)) by {
                if rest.contains(id) {
                    let k = choose|k: int| 0 <= k < rest.len() && rest[k] == id;
                    assert(ids[k] == ids[ids.len() - 1]);
                }
            }
            assert(Seq::<Seq<char>>::empty().push(text) =~= seq![text]);
        } else {
            assert(ids.contains(id) == rest.contains(id)) by {
                if ids.contains(id) {
                    let k = choose|k: int| 0 <= k < ids.len() && ids[k] == id;
                    assert(rest[k] == id);
                }
                if rest.contains(id) {
                    let k = choose|k: int| 0 <= k < rest.len() && rest[k] == id;
                    assert(ids[k] == id);
                }
            }
        }
    }
}

/// The registry that a run of joins with distinct ids builds from nothing,
/// and that nobody outside it is sent anything.
proof fn lemma_joins_state(events: Seq<HostEvent>)
    requires
        forall|k: int| 0 <= k < events.len() ==> events[k] is Joined,
        forall|a: int, b: int|
            0 <= a < b < events.len() ==> event_id(events[a]) != event_id(events[b]),
    ensures
        run(Seq::empty(), events).0 == Seq::new(
            events.len(),
            |j: int| (event_id(events[j]), event_name(events[j])),
        ),
        forall|x: u32|
            (forall|j: int| 0 <= j < events.len() ==> event_id(events[j]) != x) ==> received(
                run(Seq::empty(), events).1,
                x,
            ) == Seq::<Seq<char>>::empty(),
    decreases events.len(),
{
    if events.len() > 0 {
        let prior = events.drop_last();
        lemma_joins_state(prior);
        let n = events.len() - 1;
        let reg = run(Seq::empty(), prior).0;
        let last = events.last();
        let id = event_id(last);
        assert(!has_id(reg, id)) by {
            if has_id(reg, id) {
                let k = choose|k: int| 0 <= k < reg.len() && reg[k].0 == id;
                assert(events[k] == prior[k]);
            }
        }
        let now = reg.push((id, event_name(last)));
        assert(now =~= Seq::new(events.len(), |j: int| (event_id(events[j]), event_name(events[j]))));
        assert(ids_unique(now)) by {
            assert forall|a: int, b: int| 0 <= a < b < now.len() implies now[a].0 != now[b].0 by {
                assert(now[a].0 == event_id(events[a]));
                assert(now[b].0 == event_id(events[b]));
            }
        }
        lemma_exclusion(now, id);
        assert forall|x: u32|
            (forall|j: int| 0 <= j < events.len() ==> event_id(events[j]) != x) implies received(
                run(Seq::empty(), events).1,
                x,
            ) == Seq::<Seq<char>>::empty() by {
            assert forall|j: int| 0 <= j < prior.len() implies event_id(prior[j]) != x by {
                assert(prior[j] == events[j]);
            }
            let out = fan_out(ids_except(now, id), join_text(event_name(last)));
            lemma_received_append(run(Seq::empty(), prior).1, out.push((id, greeting_text(now.len()))), x);
            lemma_received_fan_out(ids_except(now, id), join_text(event_name(last)), x);
            assert(!ids_except(now, id).contains(x)) by {
                if ids_except(now, id).contains(x) {
                    assert(has_id(now, x));
                    let k = choose|k: int| 0 <= k < now.len() && now[k].0 == x;
                    assert(now[k] == (event_id(events[k]), event_name(events[k])));
                }
            }
            assert(out.push((id, greeting_text(now.len()))).drop_last() =~= out);
            assert(id != x) by {
                assert(event_id(events[n]) != x);
            }
        }
    }
}

/// When participants join one after the other from an empty host, each is
/// first greeted with the headcount at its arrival, then told of every later
/// joiner exactly once, in the order they joined.
pub proof fn lemma_join_order(events: Seq<HostEvent>)
    requires
        forall|k: int| 0 <= k < events.len() ==> events[k] is Joined,
        forall|a: int, b: int|
            0 <= a < b < events.len() ==> event_id(events[a]) != event_id(events[b]),
    ensures
        forall|i: int|
            0 <= i < events.len() ==> received(run(Seq::empty(), events).1, #[trigger] event_id(events[i]))
                == seq![greeting_text((i + 1) as nat)] + Seq::new(
                (events.len() - i - 1) as nat,
                |k: int| join_text(event_name(events[i + 1 + k])),
            ),
    decreases events.len(),
{
    if events.len() > 0 {
        let prior = events.drop_last();
        lemma_join_order(prior);
        lemma_joins_state(prior);
        let n = events.len() - 1;
        let reg = run(Seq::empty(), prior).0;
        let last = events.last();
        let id = event_id(last);
        assert(!has_id(reg, id)) by {
            if has_id(reg, id) {
                let k = choose|k: int| 0 <= k < reg.len() && reg[k].0 == id;
                assert(events[k] == prior[k]);
            }
        }
        let now = reg.push((id, event_name(last)));
        assert(ids_unique(now)) by {
            assert forall|a: int, b: int| 0 <= a < b < now.len() implies now[a].0 != now[b].0 by {
                if b < n {
                    assert(now[a].0 == event_id(prior[a]));
                    assert(now[b].0 == event_id(prior[b]));
                } else {
                    assert(now[a].0 == event_id(prior[a]));
                    assert(prior[a] == events[a]);
                }
            }
        }
        lemma_exclusion(now, id);
        let ids = ids_except(now, id);
        let notice = join_text(event_name(last));
        let out = fan_out(ids, notice).push((id, greeting_text(now.len())));
        assert(out.drop_last() =~= fan_out(ids, notice));
        assert forall|i: int| 0 <= i < events.len() implies received(
            run(Seq::empty(), events).1,
            #[trigger] event_id(events[i]),
        ) == seq![greeting_text((i + 1) as nat)] + Seq::new(
            (events.len() - i - 1) as nat,
            |k: int| join_text(event_name(events[i + 1 + k])),
        ) by {
            let x = event_id(events[i]);
            lemma_received_append(run(Seq::empty(), prior).1, out, x);
            lemma_received_fan_out(ids, notice, x);
            if i < n {
                assert(events[i] == prior[i]);
                assert(x != id);
                assert(now[i].0 == x);
                assert(ids.contains(x));
                let before = received(run(Seq::empty(), prior).1, x);
                assert(before == seq![greeting_text((i + 1) as nat)] + Seq::new(
                    (prior.len() - i - 1) as nat,
                    |k: int| join_text(event_name(prior[i + 1 + k])),
                ));
                assert(received(out, x) =~= seq![notice]);
                assert(seq![greeting_text((i + 1) as nat)] + Seq::new(
                    (events.len() - i - 1) as nat,
                    |k: int| join_text(event_name(events[i + 1 + k])),
                ) =~= before + seq![notice]);
            } else {
                assert(forall|j: int| 0 <= j < prior.len() ==> event_id(prior[j]) != x) by {
                    assert forall|j: int| 0 <= j < prior.len() implies event_id(prior[j]) != x by {
                        assert(prior[j] == events[j]);
                    }
                }
                assert(!ids.contains(x));
                assert(received(out, x) =~= seq![greeting_text(now.len())]);
                assert(seq![greeting_text((i + 1) as nat)] + Seq::new(
                    (events.len() - i - 1) as nat,
                    |k: int| join_text(event_name(events[i + 1 + k])),
                ) =~= seq![greeting_text(now.len())]);
            }
        }
    }
}

} // verus!
