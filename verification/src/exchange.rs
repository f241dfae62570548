//! Whole exchanges: what the engine asks for, from the first read to the last
//! action, when it is told a given sequence of events.

use crate::framing::{ends_message, framed, joined};
use crate::line_parser::{message_text, method_and_path};
use crate::text::{first_line, tokens};
use crate::relay::{
    initial, on_request, step_of, Action, ActionView, Event, EventView, Relay, RelayView,
};
use crate::source_loader::Blocklist;
use crate::response::{bad_gateway_wire, bad_request_wire, forbidden_wire};
use vstd::prelude::*;

verus! {

/// The state that the engine ends in, and the actions that it asks for in
/// turn, when it is told `events` one after the other from `state`.
pub open spec fn run(state: RelayView, events: Seq<EventView>, blocked: Set<Seq<char>>) -> (
    RelayView,
    Seq<ActionView>,
)
    decreases events.len(),
{
    if events.len() == 0 {
        (state, Seq::empty())
    } else {
        let (next, action) = step_of(state, events[0], blocked);
        let (last, actions) = run(next, events.drop_first(), blocked);
        (last, seq![action] + actions)
    }
}

/// The events in `events`, as contracts see them.
pub open spec fn event_views(events: Seq<Event<'_>>) -> Seq<EventView> {
    Seq::new(events.len(), |i: int| events[i]@)
}

/// The actions in `actions`, as contracts see them.
pub open spec fn action_views(actions: Seq<Action>) -> Seq<ActionView> {
    Seq::new(actions.len(), |i: int| actions[i]@)
}

/// Tells the engine `events` one after the other, from the state `start`, and
/// returns the state it ends in with the actions it asked for in turn.
pub fn replay(start: Relay, events: &[Event<'_>], blocklist: &Blocklist) -> (end: (
    Relay,
    Vec<Action>,
))
    ensures
        (end.0@, action_views(end.1@)) == run(start@, event_views(events@), blocklist@),
{
    let mut state = start;
    let mut actions: Vec<Action> = Vec::new();
    let mut i: usize = 0;
    proof {
        assert(event_views(events@).skip(0) =~= event_views(events@));
        assert(action_views(actions@) + run(state@, event_views(events@), blocklist@).1 =~= run(
            state@,
            event_views(events@),
            blocklist@,
        ).1);
    }
    while i < events.len()
        invariant
            i <= events.len(),
            run(start@, event_views(events@), blocklist@) == ({
                let (last, rest) = run(state@, event_views(events@).skip(i as int), blocklist@);
                (last, action_views(actions@) + rest)
            }),
        decreases events.len() - i,
    {
        let ghost before = state@;
        let ghost asked = action_views(actions@);
        let ghost coming = event_views(events@).skip(i as int);
        let (next, action) = state.step(events[i], blocklist);
        proof {
            assert(coming[0] == events@[i as int]@);
            assert(coming.drop_first() =~= event_views(events@).skip(i + 1));
        }
        state = next;
        actions.push(action);
        proof {
            let rest = run(state@, coming.drop_first(), blocklist@).1;
            assert(action_views(actions@) =~= asked + seq![action@]);
            assert(asked + (seq![action@] + rest) =~= (asked + seq![action@]) + rest);
        }
        i = i + 1;
    }
    proof {
        assert(event_views(events@).skip(i as int) =~= Seq::<EventView>::empty());
        assert(action_views(actions@) + Seq::<ActionView>::empty() =~= action_views(actions@));
    }
    (state, actions)
}

/// The events of reading `chunks` one by one.
pub open spec fn reads(chunks: Seq<Seq<u8>>) -> Seq<EventView> {
    Seq::new(chunks.len(), |i: int| EventView::Read(chunks[i]))
}

/// `action`, `n` times over.
pub open spec fn repeated(action: ActionView, n: nat) -> Seq<ActionView> {
    Seq::new(n, |i: int| action)
}

/// Whether `action` asks anything of the upstream.
pub open spec fn touches_upstream(action: ActionView) -> bool {
    action is Connect || action is SendUpstream || action is ReadUpstream
}

/// Running through two sequences of events in a row is running through the
/// first and then, from where that ended, through the second.
pub proof fn lemma_run_concat(
    state: RelayView,
    first: Seq<EventView>,
    second: Seq<EventView>,
    blocked: Set<Seq<char>>,
)
    ensures
        run(state, first + second, blocked) == ({
            let (middle, before) = run(state, first, blocked);
            let (last, after) = run(middle, second, blocked);
            (last, before + after)
        }),
    decreases first.len(),
{
    if first.len() == 0 {
        assert(first + second =~= second);
        assert(Seq::<ActionView>::empty() + run(state, second, blocked).1 =~= run(
            state,
            second,
            blocked,
        ).1);
    } else {
        let (next, action) = step_of(state, first[0], blocked);
        assert((first + second).drop_first() =~= first.drop_first() + second);
        lemma_run_concat(next, first.drop_first(), second, blocked);
        let (middle, before) = run(next, first.drop_first(), blocked);
        let (last, after) = run(middle, second, blocked);
        assert(seq![action] + (before + after) =~= (seq![action] + before) + after);
    }
}

/// Once the exchange is over, every further event is answered with `Close`.
pub proof fn lemma_closed_stays_closed(events: Seq<EventView>, blocked: Set<Seq<char>>)
    ensures
        run(RelayView::Closed, events, blocked) == (
            RelayView::Closed,
            repeated(ActionView::Close, events.len()),
        ),
    decreases events.len(),
{
    if events.len() == 0 {
        assert(repeated(ActionView::Close, 0) =~= Seq::empty());
    } else {
        lemma_closed_stays_closed(events.drop_first(), blocked);
        assert(seq![ActionView::Close] + repeated(
            ActionView::Close,
            events.drop_first().len(),
        ) =~= repeated(ActionView::Close, events.len()));
    }
}

/// Reading a request chunk by chunk asks for one further read after each full
/// chunk, and on the short chunk acts on the request as a whole.
pub proof fn lemma_request_is_read_whole(
    received: Seq<u8>,
    chunks: Seq<Seq<u8>>,
    blocked: Set<Seq<char>>,
)
    requires
        framed(chunks),
    ensures
        run(RelayView::AwaitingRequest { received }, reads(chunks), blocked) == ({
            let (next, action) = on_request(received + joined(chunks), blocked);
            (next, repeated(ActionView::ReadClient, (chunks.len() - 1) as nat) + seq![action])
        }),
    decreases chunks.len(),
{
    let events = reads(chunks);
    let rest = chunks.drop_first();
    assert(events.drop_first() =~= reads(rest));
    assert(joined(rest) == if rest.len() == 0 {
        Seq::<u8>::empty()
    } else {
        rest[0] + joined(rest.drop_first())
    });
    if chunks.len() == 1 {
        let (next, action) = on_request(received + chunks[0], blocked);
        assert(received + joined(chunks) =~= received + chunks[0]);
        assert(run(next, reads(rest), blocked).1 =~= Seq::<ActionView>::empty());
        assert(repeated(ActionView::ReadClient, 0) + seq![action] =~= seq![action] + Seq::<
            ActionView,
        >::empty());
    } else {
        assert(!ends_message(chunks[0].len()));
        assert(framed(rest)) by {
            assert(rest.last() == chunks.last());
            assert forall|i: int| 0 <= i < rest.len() - 1 implies !ends_message(
                #[trigger] rest[i].len(),
            ) by {
                assert(rest[i] == chunks[i + 1]);
            }
        }
        lemma_request_is_read_whole(received + chunks[0], rest, blocked);
        assert((received + chunks[0]) + joined(rest) =~= received + joined(chunks));
        let (next, action) = on_request(received + joined(chunks), blocked);
        assert(seq![ActionView::ReadClient] + (repeated(
            ActionView::ReadClient,
            (rest.len() - 1) as nat,
        ) + seq![action]) =~= repeated(ActionView::ReadClient, (chunks.len() - 1) as nat)
            + seq![action]);
    }
}

/// Reading a response chunk by chunk asks for one further read after each full
/// chunk, and on the short chunk replies with the response as a whole.
pub proof fn lemma_response_is_read_whole(
    received: Seq<u8>,
    chunks: Seq<Seq<u8>>,
    blocked: Set<Seq<char>>,
)
    requires
        framed(chunks),
    ensures
        run(RelayView::AwaitingResponse { received }, reads(chunks), blocked) == (
            RelayView::Closed,
            repeated(ActionView::ReadUpstream, (chunks.len() - 1) as nat) + seq![
                ActionView::Reply(received + joined(chunks)),
            ],
        ),
    decreases chunks.len(),
{
    let events = reads(chunks);
    let rest = chunks.drop_first();
    assert(events.drop_first() =~= reads(rest));
    assert(joined(rest) == if rest.len() == 0 {
        Seq::<u8>::empty()
    } else {
        rest[0] + joined(rest.drop_first())
    });
    if chunks.len() == 1 {
        let action = ActionView::Reply(received + chunks[0]);
        assert(received + joined(chunks) =~= received + chunks[0]);
        assert(run(RelayView::Closed, reads(rest), blocked).1 =~= Seq::<ActionView>::empty());
        assert(repeated(ActionView::ReadUpstream, 0) + seq![action] =~= seq![action] + Seq::<
            ActionView,
        >::empty());
    } else {
        assert(!ends_message(chunks[0].len()));
        assert(framed(rest)) by {
            assert(rest.last() == chunks.last());
            assert forall|i: int| 0 <= i < rest.len() - 1 implies !ends_message(
                #[trigger] rest[i].len(),
            ) by {
                assert(rest[i] == chunks[i + 1]);
            }
        }
        lemma_response_is_read_whole(received + chunks[0], rest, blocked);
        assert((received + chunks[0]) + joined(rest) =~= received + joined(chunks));
        let action = ActionView::Reply(received + joined(chunks));
        assert(seq![ActionView::ReadUpstream] + (repeated(
            ActionView::ReadUpstream,
            (rest.len() - 1) as nat,
        ) + seq![action]) =~= repeated(ActionView::ReadUpstream, (chunks.len() - 1) as nat)
            + seq![action]);
    }
}

/// A request for a path on the blocklist is answered with the `401` response
/// and nothing else: however the request is cut into chunks, and whatever is
/// reported afterwards, nothing is ever asked of the upstream.
pub proof fn blocked_request_is_refused(
    request: Seq<Seq<u8>>,
    path: Seq<char>,
    blocked: Set<Seq<char>>,
    later: Seq<EventView>,
)
    requires
        framed(request),
        method_and_path(message_text(joined(request))) matches Some((_, asked)) && asked == path,
        blocked.contains(path),
    ensures
        run(initial(), reads(request) + later, blocked) == (
            RelayView::Closed,
            repeated(ActionView::ReadClient, (request.len() - 1) as nat) + seq![
                ActionView::Reply(forbidden_wire()),
            ] + repeated(ActionView::Close, later.len()),
        ),
        forall|i: int|
            0 <= i < run(initial(), reads(request) + later, blocked).1.len() ==> !touches_upstream(
                #[trigger] run(initial(), reads(request) + later, blocked).1[i],
            ),
{
    assert(Seq::<u8>::empty() + joined(request) =~= joined(request));
    lemma_request_is_read_whole(Seq::empty(), request, blocked);
    lemma_closed_stays_closed(later, blocked);
    lemma_run_concat(initial(), reads(request), later, blocked);
}

/// A request without a readable request line, one whose first line has fewer
/// than two tokens, is answered with the `400` response and nothing else, and
/// nothing is ever asked of the upstream.
pub proof fn malformed_request_is_rejected(
    request: Seq<Seq<u8>>,
    blocked: Set<Seq<char>>,
    later: Seq<EventView>,
)
    requires
        framed(request),
        tokens(first_line(message_text(joined(request)))).len() < 2,
    ensures
        run(initial(), reads(request) + later, blocked) == (
            RelayView::Closed,
            repeated(ActionView::ReadClient, (request.len() - 1) as nat) + seq![
                ActionView::Reply(bad_request_wire()),
            ] + repeated(ActionView::Close, later.len()),
        ),
        forall|i: int|
            0 <= i < run(initial(), reads(request) + later, blocked).1.len() ==> !touches_upstream(
                #[trigger] run(initial(), reads(request) + later, blocked).1[i],
            ),
{
    assert(Seq::<u8>::empty() + joined(request) =~= joined(request));
    lemma_request_is_read_whole(Seq::empty(), request, blocked);
    lemma_closed_stays_closed(later, blocked);
    lemma_run_concat(initial(), reads(request), later, blocked);
}

/// A request for a path that is not on the blocklist, with an upstream that
/// connects and answers, goes through unchanged in both directions: the bytes
/// sent to the upstream are the bytes that the client sent, and the bytes sent
/// to the client are the bytes that the upstream sent, however either message
/// is cut into chunks.
pub proof fn forwarded_exchange_keeps_every_byte(
    request: Seq<Seq<u8>>,
    response: Seq<Seq<u8>>,
    path: Seq<char>,
    blocked: Set<Seq<char>>,
)
    requires
        framed(request),
        framed(response),
        method_and_path(message_text(joined(request))) matches Some((_, asked)) && asked == path,
        !blocked.contains(path),
    ensures
        run(
            initial(),
            reads(request) + seq![EventView::Connected, EventView::Sent] + reads(response),
            blocked,
        ) == (
            RelayView::Closed,
            repeated(ActionView::ReadClient, (request.len() - 1) as nat) + seq![
                ActionView::Connect,
                ActionView::SendUpstream(joined(request)),
                ActionView::ReadUpstream,
            ] + repeated(ActionView::ReadUpstream, (response.len() - 1) as nat) + seq![
                ActionView::Reply(joined(response)),
            ],
        ),
{
    let whole = joined(request);
    let handshake = seq![EventView::Connected, EventView::Sent];
    assert(Seq::<u8>::empty() + whole =~= whole);
    assert(Seq::<u8>::empty() + joined(response) =~= joined(response));
    lemma_request_is_read_whole(Seq::empty(), request, blocked);
    lemma_response_is_read_whole(Seq::empty(), response, blocked);
    let connecting = RelayView::Connecting { request: whole };
    let awaiting = RelayView::AwaitingResponse { received: Seq::empty() };
    assert(run(connecting, handshake, blocked) == (
        awaiting,
        seq![ActionView::SendUpstream(whole), ActionView::ReadUpstream],
    )) by {
        reveal_with_fuel(run, 3);
        assert(handshake.drop_first() =~= seq![EventView::Sent]);
        assert(handshake.drop_first().drop_first() =~= Seq::<EventView>::empty());
        assert(seq![ActionView::SendUpstream(whole)] + (seq![ActionView::ReadUpstream] + Seq::<
            ActionView,
        >::empty()) =~= seq![ActionView::SendUpstream(whole), ActionView::ReadUpstream]);
    }
    lemma_run_concat(initial(), reads(request), handshake, blocked);
    lemma_run_concat(initial(), reads(request) + handshake, reads(response), blocked);
    let reading = repeated(ActionView::ReadClient, (request.len() - 1) as nat);
    let answering = repeated(ActionView::ReadUpstream, (response.len() - 1) as nat);
    assert(((reading + seq![ActionView::Connect]) + seq![
        ActionView::SendUpstream(whole),
        ActionView::ReadUpstream,
    ]) + (answering + seq![ActionView::Reply(joined(response))]) =~= reading + seq![
        ActionView::Connect,
        ActionView::SendUpstream(whole),
        ActionView::ReadUpstream,
    ] + answering + seq![ActionView::Reply(joined(response))]);
}

/// A request for a path that is not on the blocklist, with an upstream that
/// cannot be reached, is answered with the `502` response.
pub proof fn unreachable_upstream_is_reported(
    request: Seq<Seq<u8>>,
    path: Seq<char>,
    blocked: Set<Seq<char>>,
)
    requires
        framed(request),
        method_and_path(message_text(joined(request))) matches Some((_, asked)) && asked == path,
        !blocked.contains(path),
    ensures
        run(initial(), reads(request) + seq![EventView::Failed], blocked) == (
            RelayView::Closed,
            repeated(ActionView::ReadClient, (request.len() - 1) as nat) + seq![
                ActionView::Connect,
                ActionView::Reply(bad_gateway_wire()),
            ],
        ),
{
    let whole = joined(request);
    let failure = seq![EventView::Failed];
    assert(Seq::<u8>::empty() + whole =~= whole);
    lemma_request_is_read_whole(Seq::empty(), request, blocked);
    let connecting = RelayView::Connecting { request: whole };
    assert(run(connecting, failure, blocked) == (
        RelayView::Closed,
        seq![ActionView::Reply(bad_gateway_wire())],
    )) by {
        reveal_with_fuel(run, 2);
        assert(failure.drop_first() =~= Seq::<EventView>::empty());
        assert(seq![ActionView::Reply(bad_gateway_wire())] + Seq::<ActionView>::empty() =~= seq![
            ActionView::Reply(bad_gateway_wire()),
        ]);
    }
    lemma_run_concat(initial(), reads(request), failure, blocked);
    let reading = repeated(ActionView::ReadClient, (request.len() - 1) as nat);
    assert((reading + seq![ActionView::Connect]) + seq![ActionView::Reply(bad_gateway_wire())]
        =~= reading + seq![ActionView::Connect, ActionView::Reply(bad_gateway_wire())]);
}

/// The states that many connections end in, and the actions asked for in
/// turn, each with the number of its connection, when `reports` are told in
/// their order. A report names its connection by its place in `states`; one
/// that names no connection is passed over.
pub open spec fn run_many(
    states: Seq<RelayView>,
    reports: Seq<(int, EventView)>,
    blocked: Set<Seq<char>>,
) -> (Seq<RelayView>, Seq<(int, ActionView)>)
    decreases reports.len(),
{
    if reports.len() == 0 {
        (states, Seq::empty())
    } else {
        let (who, event) = reports[0];
        if 0 <= who < states.len() {
            let (next, action) = step_of(states[who], event, blocked);
            let (last, actions) = run_many(
                states.update(who, next),
                reports.drop_first(),
                blocked,
            );
            (last, seq![(who, action)] + actions)
        } else {
            run_many(states, reports.drop_first(), blocked)
        }
    }
}

/// The events in `reports` that belong to the connection `who`, in order.
pub open spec fn events_of(reports: Seq<(int, EventView)>, who: int) -> Seq<EventView>
    decreases reports.len(),
{
    if reports.len() == 0 {
        Seq::empty()
    } else if reports[0].0 == who {
        seq![reports[0].1] + events_of(reports.drop_first(), who)
    } else {
        events_of(reports.drop_first(), who)
    }
}

/// The actions in `actions` that belong to the connection `who`, in order.
pub open spec fn actions_of(actions: Seq<(int, ActionView)>, who: int) -> Seq<ActionView>
    decreases actions.len(),
{
    if actions.len() == 0 {
        Seq::empty()
    } else if actions[0].0 == who {
        seq![actions[0].1] + actions_of(actions.drop_first(), who)
    } else {
        actions_of(actions.drop_first(), who)
    }
}

/// Connections do not touch each other: whatever is reported on other
/// connections, and however those reports fall between its own, a connection
/// ends in the state, and is asked for the actions, that its own events alone
/// lead to.
pub proof fn connections_are_independent(
    states: Seq<RelayView>,
    reports: Seq<(int, EventView)>,
    who: int,
    blocked: Set<Seq<char>>,
)
    requires
        0 <= who < states.len(),
    ensures
        run_many(states, reports, blocked).0.len() == states.len(),
        run_many(states, reports, blocked).0[who] == run(
            states[who],
            events_of(reports, who),
            blocked,
        ).0,
        actions_of(run_many(states, reports, blocked).1, who) == run(
            states[who],
            events_of(reports, who),
            blocked,
        ).1,
    decreases reports.len(),
{
    if reports.len() != 0 {
        let (other, event) = reports[0];
        let rest = reports.drop_first();
        if 0 <= other < states.len() {
            let (next, action) = step_of(states[other], event, blocked);
            let moved = states.update(other, next);
            connections_are_independent(moved, rest, who, blocked);
            let after = run_many(moved, rest, blocked).1;
            let all = seq![(other, action)] + after;
            assert(all.drop_first() =~= after);
            if other == who {
                assert(events_of(reports, who).drop_first() =~= events_of(rest, who));
            }
        } else {
            connections_are_independent(states, rest, who, blocked);
        }
    }
}

} // verus!
