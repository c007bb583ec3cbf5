//! What holds of every document.

use vstd::prelude::*;

use crate::error::ErrorView;
use crate::event::EventView;
use crate::grammar::{
    abandoned, asked, decl_step, ends_head, run, step, DeclSt, OutcomeView, ParserView, StateView,
};
use crate::lexer::{ReadView, TokenView};

verus! {

/// A parser in a proper state stays in one, whatever it reads.
pub proof fn step_keeps_wf(p: ParserView, read: ReadView)
    requires
        p.wf(),
    ensures
        step(p, read) matches Ok(q) ==> q.wf(),
{
}

/// A parser that is fed token by token stays in proper states all along.
pub proof fn run_keeps_wf(p: ParserView, reads: Seq<ReadView>)
    requires
        p.wf(),
    ensures
        run(p, reads) matches Ok(q) ==> q.wf(),
    decreases reads.len(),
{
    if reads.len() > 0 {
        run_keeps_wf(p, reads.drop_last());
        if let Ok(m) = run(p, reads.drop_last()) {
            step_keeps_wf(m, reads.last());
        }
    }
}

/// What has to come after a part of the XML declaration, if the declaration goes on.
pub open spec fn next_in_declaration(st: DeclSt) -> Option<DeclSt> {
    match st {
        DeclSt::VersionName => Some(DeclSt::VersionEq),
        DeclSt::VersionEq => Some(DeclSt::VersionValue),
        DeclSt::VersionValue => Some(DeclSt::EncodingName),
        DeclSt::EncodingName => Some(DeclSt::EncodingEq),
        DeclSt::EncodingEq => Some(DeclSt::EncodingValue),
        DeclSt::EncodingValue => Some(DeclSt::StandaloneName),
        DeclSt::StandaloneName => Some(DeclSt::StandaloneEq),
        DeclSt::StandaloneEq => Some(DeclSt::StandaloneValue),
        DeclSt::StandaloneValue => Some(DeclSt::Close),
        DeclSt::Close => None,
    }
}

/// Each step inside the XML declaration goes to the very next part of it, and the version is set
/// at its value and nowhere else; apart from that the parser stays as it is. The only other step
/// is the end of the declaration, after a whole attribute, which tells of the version.
pub proof fn declaration_goes_part_by_part(
    p: ParserView,
    st: DeclSt,
    version: Option<Seq<char>>,
    token: Option<TokenView>,
)
    ensures
        decl_step(p, st, version, token) matches Ok(q) ==> match q.state {
            StateView::Decl(next, next_version) => {
                &&& next_in_declaration(st) == Some(next)
                &&& next_version == if st is VersionValue {
                    Some("1.0"@)
                } else {
                    version
                }
                &&& q == p.at(q.state)
            },
            _ => {
                &&& token == Some(TokenView::XMLDeclEnd)
                &&& st is EncodingName || st is StandaloneName || st is Close
                &&& q == p.at(StateView::Expected).emit(EventView::XMLDeclaration(version->0))
            },
        },
{
}

/// When a document has ended without an error, no element is open, no declaration is in scope and
/// no head is being read.
pub proof fn nothing_is_left_of_a_document(reads: Seq<ReadView>)
    ensures
        run(ParserView::initial(), reads) matches Ok(q) ==> q.state is Eof ==> q.names.len() == 0
            && q.scopes.len() == 0 && q.head is None,
{
    run_keeps_wf(ParserView::initial(), reads);
}

/// A parser that gives up takes nothing from what it has to tell, and neither opens nor closes an
/// element; only the head that is being read may have changed, and only the end of it lets its
/// declarations come into scope.
pub proof fn an_error_keeps_events_and_elements(p: ParserView, read: ReadView)
    ensures
        abandoned(p, read).queue == p.queue,
        abandoned(p, read).names == p.names,
        !(read matches Ok(token) && ends_head(p, token)) ==> abandoned(p, read).scopes == p.scopes,
{
}

/// The number of elements that have been started and not ended.
pub open spec fn depth(events: Seq<EventView>) -> int
    decreases events.len(),
{
    if events.len() == 0 {
        0
    } else {
        depth(events.drop_last()) + match events.last() {
            EventView::StartElement(_, _) => 1int,
            EventView::EndElement => -1int,
            _ => 0int,
        }
    }
}

/// The root element has been started.
pub open spec fn started(events: Seq<EventView>) -> bool {
    exists|i: int| 0 <= i < events.len() && #[trigger] events[i] is StartElement
}

/// The events can be the beginning of what is told of a document: an XML declaration, if there is
/// one, comes first and gives the version 1.0; an element that lies in no other one is the only
/// such element; and text and the end of an element come only inside of an element.
pub open spec fn nested(events: Seq<EventView>) -> bool
    decreases events.len(),
{
    events.len() > 0 ==> {
        let before = events.drop_last();
        &&& nested(before)
        &&& match events.last() {
            EventView::XMLDeclaration(version) => before.len() == 0 && version == "1.0"@,
            EventView::StartElement(_, _) => depth(before) > 0 || !started(before),
            EventView::EndElement | EventView::Text(_) => depth(before) > 0,
        }
    }
}

/// The events tell of a whole document.
pub open spec fn complete(events: Seq<EventView>) -> bool {
    nested(events) && started(events) && depth(events) == 0
}

/// The events that a parser has told of fit the state that it is in.
spec fn consistent(p: ParserView) -> bool {
    &&& nested(p.queue)
    &&& depth(p.queue) == p.names.len()
    &&& match p.state {
        StateView::Initial | StateView::Decl(_, _) => p.queue.len() == 0,
        StateView::Expected => !started(p.queue),
        StateView::AttrName | StateView::AttrEq(_) | StateView::AttrValue(_) => p.names.len() > 0
            || !started(p.queue),
        StateView::CData | StateView::ElementFoot | StateView::Eof => started(p.queue),
    }
}

proof fn push_started(events: Seq<EventView>, event: EventView)
    ensures
        events.push(event).drop_last() == events,
        started(events.push(event)) == (started(events) || event is StartElement),
{
    let all = events.push(event);
    assert(all.drop_last() =~= events);
    if started(events) {
        let i = choose|i: int| 0 <= i < events.len() && #[trigger] events[i] is StartElement;
        assert(all[i] is StartElement);
    }
    if event is StartElement {
        assert(all[events.len() as int] is StartElement);
    }
    if started(all) {
        let i = choose|i: int| 0 <= i < all.len() && #[trigger] all[i] is StartElement;
        if i < events.len() {
            assert(events[i] is StartElement);
        }
    }
}

proof fn step_keeps_consistent(p: ParserView, read: ReadView)
    requires
        p.wf(),
        consistent(p),
    ensures
        step(p, read) matches Ok(q) ==> consistent(q),
{
    if let Ok(q) = step(p, read) {
        let n = p.queue.len();
        if q.queue.len() == n + 1 {
            push_started(p.queue, q.queue.last());
            assert(q.queue =~= p.queue.push(q.queue.last()));
        } else if q.queue.len() == n + 2 {
            let mid = p.queue.push(q.queue[n as int]);
            push_started(p.queue, q.queue[n as int]);
            push_started(mid, q.queue.last());
            assert(q.queue =~= mid.push(q.queue.last()));
            assert(depth(mid) == p.names.len() + 1);
            assert(nested(mid));
        } else {
            assert(q.queue =~= p.queue);
        }
    }
}

proof fn run_keeps_consistent(p: ParserView, reads: Seq<ReadView>)
    requires
        p.wf(),
        consistent(p),
    ensures
        run(p, reads) matches Ok(q) ==> consistent(q),
    decreases reads.len(),
{
    if reads.len() > 0 {
        run_keeps_consistent(p, reads.drop_last());
        run_keeps_wf(p, reads.drop_last());
        if let Ok(m) = run(p, reads.drop_last()) {
            step_keeps_consistent(m, reads.last());
        }
    }
}

/// Whatever tokens a parser accepts, the events of them are nested, and as many elements are open
/// as the parser keeps track of. Where the document has ended, its events are complete.
pub proof fn events_are_nested(reads: Seq<ReadView>)
    ensures
        run(ParserView::initial(), reads) matches Ok(q) ==> {
            &&& nested(q.queue)
            &&& depth(q.queue) == q.names.len()
            &&& q.state is Eof ==> complete(q.queue)
        },
{
    run_keeps_consistent(ParserView::initial(), reads);
    run_keeps_wf(ParserView::initial(), reads);
}

/// What is told of a whole document cannot be continued.
pub proof fn nothing_follows_a_document(events: Seq<EventView>, event: EventView)
    requires
        complete(events),
    ensures
        !nested(events.push(event)),
{
    push_started(events, event);
    assert(events.len() > 0);
}

/// The same as `next`, where other events come first.
pub open spec fn behind(
    earlier: Seq<EventView>,
    next: Result<ParserView, ErrorView>,
) -> Result<ParserView, ErrorView> {
    match next {
        Ok(q) => Ok(ParserView { queue: earlier + q.queue, ..q }),
        Err(e) => Err(e),
    }
}

/// Events that have not been handed out yet have no influence on what a parser makes of a token.
pub proof fn queue_has_no_influence(p: ParserView, earlier: Seq<EventView>, read: ReadView)
    ensures
        step(ParserView { queue: earlier + p.queue, ..p }, read) == behind(earlier, step(p, read)),
{
    assert forall|event: EventView|
        (earlier + p.queue).push(event) == earlier + #[trigger] p.queue.push(event) by {
        assert((earlier + p.queue).push(event) =~= earlier + p.queue.push(event));
    }
    assert forall|a: EventView, b: EventView|
        (earlier + p.queue).push(a).push(b) == earlier + #[trigger] p.queue.push(a).push(b) by {
        assert((earlier + p.queue).push(a).push(b) =~= earlier + p.queue.push(a).push(b));
    }
}

/// Nor have they on what it makes of a row of tokens.
pub proof fn queue_has_no_influence_on_run(
    p: ParserView,
    earlier: Seq<EventView>,
    reads: Seq<ReadView>,
)
    ensures
        run(ParserView { queue: earlier + p.queue, ..p }, reads) == behind(earlier, run(p, reads)),
    decreases reads.len(),
{
    if reads.len() > 0 {
        queue_has_no_influence_on_run(p, earlier, reads.drop_last());
        if let Ok(m) = run(p, reads.drop_last()) {
            queue_has_no_influence(m, earlier, reads.last());
        }
    }
}

/// Tokens can be fed in portions.
pub proof fn run_in_portions(p: ParserView, first: Seq<ReadView>, second: Seq<ReadView>)
    ensures
        run(p, first + second) == match run(p, first) {
            Ok(m) => run(m, second),
            Err(e) => Err(e),
        },
    decreases second.len(),
{
    if second.len() == 0 {
        assert(first + second =~= first);
    } else {
        assert((first + second).drop_last() =~= first + second.drop_last());
        assert((first + second).last() == second.last());
        run_in_portions(p, first, second.drop_last());
    }
}

/// A parser that was asked for an event, and what it read on that occasion.
pub struct Call {
    pub reads: Seq<ReadView>,
    pub event: EventView,
}

/// A parser in the state `p` was asked again and again, told an event each time, and is in the
/// state `q`.
pub open spec fn session(p: ParserView, calls: Seq<Call>, q: ParserView) -> bool
    decreases calls.len(),
{
    if calls.len() == 0 {
        p == q
    } else {
        exists|m: ParserView|
            session(p, calls.drop_last(), m) && #[trigger] asked(
                m,
                calls.last().reads,
                OutcomeView::Ok(Some(calls.last().event)),
                q,
            )
    }
}

/// The events that were told.
pub open spec fn told(calls: Seq<Call>) -> Seq<EventView> {
    calls.map_values(|call: Call| call.event)
}

/// All that was read.
pub open spec fn read_in(calls: Seq<Call>) -> Seq<ReadView>
    decreases calls.len(),
{
    if calls.len() == 0 {
        Seq::empty()
    } else {
        read_in(calls.drop_last()) + calls.last().reads
    }
}

/// A parser tells exactly the events of the tokens that it has read, in their order; those that
/// it has not told yet are still to come.
pub proof fn events_are_told_in_order(p: ParserView, calls: Seq<Call>, q: ParserView)
    requires
        session(p, calls, q),
    ensures
        run(p, read_in(calls)) == behind(told(calls), Ok(q)),
    decreases calls.len(),
{
    if calls.len() == 0 {
        assert(told(calls) + q.queue =~= q.queue);
    } else {
        let rest = calls.drop_last();
        let last = calls.last();
        let m = choose|m: ParserView|
            session(p, rest, m) && #[trigger] asked(
                m,
                last.reads,
                OutcomeView::Ok(Some(last.event)),
                q,
            );
        events_are_told_in_order(p, rest, m);
        run_in_portions(p, read_in(rest), last.reads);
        queue_has_no_influence_on_run(m, told(rest), last.reads);
        let k = run(m, last.reads)->Ok_0;
        assert(told(calls) =~= told(rest).push(last.event));
        assert(told(rest) + k.queue =~= told(calls) + q.queue);
    }
}

proof fn beginning_is_nested(events: Seq<EventView>, more: Seq<EventView>)
    requires
        nested(events + more),
    ensures
        nested(events),
    decreases more.len(),
{
    if more.len() == 0 {
        assert(events + more =~= events);
    } else {
        assert((events + more).drop_last() =~= events + more.drop_last());
        beginning_is_nested(events, more.drop_last());
    }
}

/// The events that a parser tells of a document are nested; and when it has nothing more to tell,
/// without having told of an error, they are those of a whole document.
pub proof fn told_documents_are_nested(
    calls: Seq<Call>,
    q: ParserView,
    reads: Seq<ReadView>,
    end: ParserView,
)
    requires
        session(ParserView::initial(), calls, q),
    ensures
        nested(told(calls)),
        asked(q, reads, OutcomeView::Ok(None), end) ==> complete(told(calls)),
{
    let p = ParserView::initial();
    events_are_told_in_order(p, calls, q);
    events_are_nested(read_in(calls));
    beginning_is_nested(told(calls), q.queue);
    if asked(q, reads, OutcomeView::Ok(None), end) {
        run_in_portions(p, read_in(calls), reads);
        queue_has_no_influence_on_run(q, told(calls), reads);
        events_are_nested(read_in(calls) + reads);
        assert(told(calls) + end.queue =~= told(calls));
    }
}

/// What a parser tells, and how far it reads, depends on what it reads alone.
pub proof fn there_is_one_answer(
    p: ParserView,
    reads1: Seq<ReadView>,
    outcome1: OutcomeView,
    q1: ParserView,
    reads2: Seq<ReadView>,
    outcome2: OutcomeView,
    q2: ParserView,
)
    requires
        asked(p, reads1, outcome1, q1),
        asked(p, reads2, outcome2, q2),
        reads1.is_prefix_of(reads2) || reads2.is_prefix_of(reads1),
    ensures
        reads1 == reads2,
        outcome1 == outcome2,
        q1 == q2,
{
    if reads1.len() < reads2.len() {
        assert(reads2.take(reads1.len() as int) =~= reads1);
    } else if reads2.len() < reads1.len() {
        assert(reads1.take(reads2.len() as int) =~= reads2);
    } else {
        assert(reads1 =~= reads2);
    }
}

/// A parser that is asked for events is not in the middle of a tag then, and keeps at most the end
/// of an element back.
pub open spec fn resting(p: ParserView) -> bool {
    &&& p.head is None
    &&& p.queue.len() <= 1
    &&& p.queue.len() == 1 ==> p.queue[0] is EndElement
    &&& p.state is Expected || p.state is CData || p.state is Eof
}

proof fn asked_keeps_wf(p: ParserView, reads: Seq<ReadView>, outcome: OutcomeView, q: ParserView)
    requires
        p.wf(),
        asked(p, reads, outcome, q),
    ensures
        q.wf(),
{
    run_keeps_wf(p, reads);
}

/// Whatever a parser is asked, it rests afterwards, if it rested or was new before.
pub proof fn parser_rests_when_asked(
    p: ParserView,
    reads: Seq<ReadView>,
    outcome: OutcomeView,
    q: ParserView,
)
    requires
        p.wf(),
        resting(p) || p == ParserView::initial(),
        asked(p, reads, outcome, q),
    ensures
        resting(q),
{
    if reads.len() > 0 {
        let n = reads.len() - 1;
        assert(reads.drop_last() =~= reads.take(n));
        assert(run(p, reads.take(n)) is Ok);
        run_keeps_wf(p, reads.take(n));
        run_keeps_wf(p, reads);
    }
}

/// At most one event waits to be told between two calls, and it is the end of an element; no head
/// is being read then. After the first event the parser is before the root element, inside an
/// element, or at the end.
pub proof fn parser_rests_between_events(calls: Seq<Call>, q: ParserView)
    requires
        session(ParserView::initial(), calls, q),
    ensures
        q.wf(),
        q.queue.len() <= 1,
        q.queue.len() == 1 ==> q.queue[0] is EndElement,
        q.head is None,
        calls.len() > 0 ==> q.state is Expected || q.state is CData || q.state is Eof,
        calls.len() > 0 ==> resting(q),
    decreases calls.len(),
{
    if calls.len() > 0 {
        let last = calls.last();
        let outcome = OutcomeView::Ok(Some(last.event));
        let m = choose|m: ParserView|
            session(ParserView::initial(), calls.drop_last(), m) && #[trigger] asked(
                m,
                last.reads,
                OutcomeView::Ok(Some(last.event)),
                q,
            );
        parser_rests_between_events(calls.drop_last(), m);
        asked_keeps_wf(m, last.reads, outcome, q);
        parser_rests_when_asked(m, last.reads, outcome, q);
    }
}

/// When the events of a whole document have been told, nothing more is read and nothing more is
/// told, no error either.
pub proof fn parser_is_silent_after_a_document(
    calls: Seq<Call>,
    q: ParserView,
    reads: Seq<ReadView>,
    outcome: OutcomeView,
    end: ParserView,
)
    requires
        session(ParserView::initial(), calls, q),
        complete(told(calls)),
        asked(q, reads, outcome, end),
    ensures
        reads.len() == 0,
        outcome == OutcomeView::Ok(None),
        end == q,
{
    let p = ParserView::initial();
    events_are_told_in_order(p, calls, q);
    run_keeps_consistent(p, read_in(calls));
    run_keeps_wf(p, read_in(calls));
    let all = told(calls) + q.queue;
    if q.queue.len() > 0 {
        let event = q.queue.first();
        assert(all =~= told(calls).push(event) + q.queue.drop_first());
        beginning_is_nested(told(calls).push(event), q.queue.drop_first());
        nothing_follows_a_document(told(calls), event);
    }
    assert(all =~= told(calls));
    assert(q.state is Eof);
    if reads.len() > 0 {
        assert(run(q, reads.take(0)) == Ok::<ParserView, ErrorView>(q));
    }
}

/// The texts among events, in their order.
pub open spec fn texts_told(events: Seq<EventView>) -> Seq<Seq<char>>
    decreases events.len(),
{
    if events.len() == 0 {
        Seq::empty()
    } else {
        let before = texts_told(events.drop_last());
        match events.last() {
            EventView::Text(text) => before.push(text),
            _ => before,
        }
    }
}

/// The texts among what was read, in their order.
pub open spec fn texts_read(reads: Seq<ReadView>) -> Seq<Seq<char>>
    decreases reads.len(),
{
    if reads.len() == 0 {
        Seq::empty()
    } else {
        let before = texts_read(reads.drop_last());
        match reads.last() {
            Ok(Some(TokenView::Text(text))) => before.push(text),
            _ => before,
        }
    }
}

proof fn texts_told_in_portions(first: Seq<EventView>, second: Seq<EventView>)
    ensures
        texts_told(first + second) == texts_told(first) + texts_told(second),
    decreases second.len(),
{
    if second.len() == 0 {
        assert(first + second =~= first);
        assert(texts_told(first) + texts_told(second) =~= texts_told(first));
    } else {
        assert((first + second).drop_last() =~= first + second.drop_last());
        texts_told_in_portions(first, second.drop_last());
        assert(texts_told(first + second) =~= texts_told(first) + texts_told(second));
    }
}

proof fn texts_read_in_portions(first: Seq<ReadView>, second: Seq<ReadView>)
    ensures
        texts_read(first + second) == texts_read(first) + texts_read(second),
    decreases second.len(),
{
    if second.len() == 0 {
        assert(first + second =~= first);
        assert(texts_read(first) + texts_read(second) =~= texts_read(first));
    } else {
        assert((first + second).drop_last() =~= first + second.drop_last());
        texts_read_in_portions(first, second.drop_last());
        assert(texts_read(first + second) =~= texts_read(first) + texts_read(second));
    }
}

proof fn push_text(events: Seq<EventView>, event: EventView)
    ensures
        texts_told(events.push(event)) == match event {
            EventView::Text(text) => texts_told(events).push(text),
            _ => texts_told(events),
        },
{
    assert(events.push(event).drop_last() =~= events);
}

proof fn step_keeps_texts(p: ParserView, read: ReadView)
    requires
        !(p.state is Eof),
    ensures
        step(p, read) matches Ok(q) ==> texts_told(q.queue) == match read {
            Ok(Some(TokenView::Text(text))) => texts_told(p.queue).push(text),
            _ => texts_told(p.queue),
        },
{
    if let Ok(q) = step(p, read) {
        let n = p.queue.len();
        if q.queue.len() == n + 1 {
            push_text(p.queue, q.queue.last());
            assert(q.queue =~= p.queue.push(q.queue.last()));
        } else if q.queue.len() == n + 2 {
            let mid = p.queue.push(q.queue[n as int]);
            push_text(p.queue, q.queue[n as int]);
            push_text(mid, q.queue.last());
            assert(q.queue =~= mid.push(q.queue.last()));
        } else {
            assert(q.queue =~= p.queue);
        }
    }
}

proof fn run_keeps_texts(p: ParserView, reads: Seq<ReadView>)
    requires
        forall|i: int|
            0 <= i < reads.len() ==> (#[trigger] run(p, reads.take(i)) matches Ok(m)
                && m.waiting()),
    ensures
        run(p, reads) matches Ok(q) ==> texts_told(q.queue) == texts_told(p.queue) + texts_read(
            reads,
        ),
    decreases reads.len(),
{
    if reads.len() == 0 {
        assert(texts_told(p.queue) + texts_read(reads) =~= texts_told(p.queue));
    } else {
        let rest = reads.drop_last();
        let n = rest.len() as int;
        assert forall|i: int| 0 <= i < n implies (#[trigger] run(p, rest.take(i)) matches Ok(m)
            && m.waiting()) by {
            assert(rest.take(i) =~= reads.take(i));
        }
        run_keeps_texts(p, rest);
        assert(reads.take(n) =~= rest);
        let m = run(p, rest)->Ok_0;
        step_keeps_texts(m, reads.last());
        if let Ok(q) = run(p, reads) {
            assert(texts_told(q.queue) =~= texts_told(p.queue) + texts_read(reads));
        }
    }
}

/// The texts that a parser tells, with those that are still to come, are the texts that it has
/// read, in their order and as they are.
pub proof fn texts_are_told_as_read(calls: Seq<Call>, q: ParserView)
    requires
        session(ParserView::initial(), calls, q),
    ensures
        texts_told(told(calls) + q.queue) == texts_read(read_in(calls)),
    decreases calls.len(),
{
    if calls.len() == 0 {
        assert(told(calls) + q.queue =~= Seq::empty());
    } else {
        let rest = calls.drop_last();
        let last = calls.last();
        let m = choose|m: ParserView|
            session(ParserView::initial(), rest, m) && #[trigger] asked(
                m,
                last.reads,
                OutcomeView::Ok(Some(last.event)),
                q,
            );
        texts_are_told_as_read(rest, m);
        run_keeps_texts(m, last.reads);
        let k = run(m, last.reads)->Ok_0;
        assert(told(calls) =~= told(rest).push(last.event));
        assert(told(calls) + q.queue =~= told(rest) + k.queue);
        texts_told_in_portions(told(rest), k.queue);
        texts_told_in_portions(told(rest), m.queue);
        texts_read_in_portions(read_in(rest), last.reads);
        assert(texts_told(told(rest)) + (texts_told(m.queue) + texts_read(last.reads)) =~= (
        texts_told(told(rest)) + texts_told(m.queue)) + texts_read(last.reads));
    }
}

/// A parser that has told of an error, or that the document is over, reads nothing any more and
/// has nothing to tell from then on.
pub proof fn the_end_is_final(
    p: ParserView,
    reads: Seq<ReadView>,
    outcome: OutcomeView,
    end: ParserView,
    more: Seq<ReadView>,
    again: OutcomeView,
    q: ParserView,
)
    requires
        asked(p, reads, outcome, end),
        outcome is Err || outcome == OutcomeView::Ok(None),
        asked(end, more, again, q),
    ensures
        more.len() == 0,
        again == OutcomeView::Ok(None),
        q == end,
{
    if more.len() > 0 {
        assert(run(end, more.take(0)) == Ok::<ParserView, ErrorView>(end));
    }
}

} // verus!
