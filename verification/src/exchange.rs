//! One request and what comes back for it: sent, awaited, and sent again the
//! way RFC 7252 section 4.2 says.

use vstd::arithmetic::power2::{lemma2_to64, lemma_pow2_unfold, pow2};
use vstd::prelude::*;
use vstd::slice::*;
use vstd::string::*;

use crate::error::CoapError;
use crate::message::{
    code_class, decode, decoding, option_at, options_at, request_view, Kind, Message, MessageView,
    PAYLOAD_MARKER,
};
use crate::options::OptionView;
use crate::outcomes::only_a_reset_is_one;

verus! {

/// `MAX_RETRANSMIT`, RFC 7252 section 4.8.
pub const MAX_RETRANSMIT: u32 = 4;

/// The longest time that can be waited, in nanoseconds: what the seconds of
/// a `Duration` can count, and a nanosecond less than one more.
pub const LONGEST_TIMEOUT: u128 = 18_446_744_073_709_551_615_999_999_999;

/// Why nothing could be taken from a socket.
#[derive(Clone, Copy, Debug, PartialEq, Eq, Structural)]
pub enum Failure {
    WouldBlock,
    TimedOut,
    Other,
}

/// Whether nothing arrived within the time that was waited. Sockets say so in
/// one of two ways.
pub open spec fn timed_out(failure: Failure) -> bool {
    failure == Failure::WouldBlock || failure == Failure::TimedOut
}

/// Whether nothing arrived within the time that was waited.
pub fn is_timeout(failure: Failure) -> (yes: bool)
    ensures
        yes == timed_out(failure),
        yes == (failure is WouldBlock || failure is TimedOut),
{
    match failure {
        Failure::WouldBlock | Failure::TimedOut => true,
        Failure::Other => false,
    }
}

/// What happened on the socket of an exchange.
#[derive(Clone, Debug, PartialEq, Eq)]
pub enum Event {
    /// The request was sent.
    Sent,
    /// A datagram arrived, with `left` nanoseconds left of the wait.
    Arrived { datagram: Vec<u8>, left: u128 },
    /// Nothing could be taken.
    Failed(Failure),
}

/// What an exchange does next.
#[derive(Clone, Debug, PartialEq, Eq)]
pub enum Step {
    /// Send the request.
    Send,
    /// Wait this many nanoseconds for a datagram.
    Await(u128),
    /// The exchange is over, with this message.
    Done(Message),
    /// The exchange is over, with this error.
    Refused(CoapError),
    /// The exchange is over, with the failure that was reported last.
    Broken,
}

/// An event as a mathematical value.
pub enum EventView {
    Sent,
    Arrived { datagram: Seq<u8>, left: nat },
    Failed(Failure),
}

/// A step as a mathematical value.
pub enum StepView {
    Send,
    Await(nat),
    Done(MessageView),
    Refused(CoapError),
    Broken,
}

impl View for Event {
    type V = EventView;

    open spec fn view(&self) -> EventView {
        match *self {
            Event::Sent => EventView::Sent,
            Event::Arrived { datagram, left } => EventView::Arrived {
                datagram: datagram@,
                left: left as nat,
            },
            Event::Failed(failure) => EventView::Failed(failure),
        }
    }
}

impl View for Step {
    type V = StepView;

    open spec fn view(&self) -> StepView {
        match *self {
            Step::Send => StepView::Send,
            Step::Await(timeout) => StepView::Await(timeout as nat),
            Step::Done(message) => StepView::Done(message@),
            Step::Refused(error) => StepView::Refused(error),
            Step::Broken => StepView::Broken,
        }
    }
}

/// One request on its way.
pub struct Exchange {
    address: String,
    id: u16,
    datagram: Vec<u8>,
    confirmable: bool,
    timeout: u128,
    attempt: u32,
}

/// An exchange as a mathematical value.
#[verifier::ext_equal]
pub struct ExchangeView {
    /// Whom the request goes to.
    pub address: Seq<char>,
    /// The request's message id.
    pub id: u16,
    /// The request on the wire.
    pub datagram: Seq<u8>,
    /// Whether an acknowledgement is awaited.
    pub confirmable: bool,
    /// How long the next one is awaited, in nanoseconds.
    pub timeout: nat,
    /// How often the request has been sent again.
    pub attempt: nat,
}

impl View for Exchange {
    type V = ExchangeView;

    closed spec fn view(&self) -> ExchangeView {
        ExchangeView {
            address: self.address@,
            id: self.id,
            datagram: self.datagram@,
            confirmable: self.confirmable,
            timeout: self.timeout as nat,
            attempt: self.attempt as nat,
        }
    }
}

/// The message that stands for the answer where none is awaited.
pub open spec fn no_answer(id: u16) -> MessageView {
    request_view(Kind::NonConfirmable, 0, id, Seq::empty(), Seq::empty())
}

/// What an exchange becomes when the wait runs out, and what it does next: the
/// request is sent again, with twice the time to answer, or given up if that
/// was the last time.
pub open spec fn waited_out(exchange: ExchangeView) -> (ExchangeView, StepView) {
    if exchange.attempt < MAX_RETRANSMIT {
        (
            ExchangeView {
                attempt: exchange.attempt + 1,
                timeout: 2 * exchange.timeout,
                ..exchange
            },
            StepView::Send,
        )
    } else {
        (exchange, StepView::Refused(CoapError::NotAcknowledged))
    }
}

/// What an exchange becomes when `event` happens, and what it does next.
///
/// - Once sent, a confirmable request is awaited; another one is done with.
/// - What arrives under another message id counts for nothing: what is left of
///   the wait is waited.
/// - An answer of an error class, a Reset, or what is not CoAP, is refused.
/// - Any other answer ends the exchange.
/// - When the wait runs out, the request is sent again or given up.
/// - Any other failure ends the exchange as it is.
pub open spec fn stepped(exchange: ExchangeView, event: EventView) -> (ExchangeView, StepView) {
    match event {
        EventView::Sent => if exchange.confirmable {
            (exchange, StepView::Await(exchange.timeout))
        } else {
            (exchange, StepView::Done(no_answer(exchange.id)))
        },
        EventView::Arrived { datagram, left } => match decoding(datagram) {
            Err(error) => (exchange, StepView::Refused(error)),
            Ok(response) => if response.id != exchange.id {
                if left > 0 {
                    (exchange, StepView::Await(left))
                } else {
                    waited_out(exchange)
                }
            } else if code_class(response.code) >= 4 {
                (exchange, StepView::Refused(CoapError::PeerAnswered(response.code)))
            } else if response.kind == Kind::Reset {
                (exchange, StepView::Refused(CoapError::PeerReset))
            } else {
                (exchange, StepView::Done(response))
            },
        },
        EventView::Failed(failure) => if timed_out(failure) {
            waited_out(exchange)
        } else {
            (exchange, StepView::Broken)
        },
    }
}

/// `event` does not have a wait doubled that cannot be waited.
pub open spec fn can_double(exchange: ExchangeView, event: EventView) -> bool {
    stepped(exchange, event).0.timeout != exchange.timeout ==> 2 * exchange.timeout
        <= LONGEST_TIMEOUT
}

impl Exchange {
    /// An exchange whose request has not been sent yet.
    pub(crate) fn new(
        address: &str,
        id: u16,
        datagram: Vec<u8>,
        confirmable: bool,
        timeout: u128,
    ) -> (exchange: Self)
        ensures
            exchange@ == (ExchangeView {
                address: address@,
                id,
                datagram: datagram@,
                confirmable,
                timeout: timeout as nat,
                attempt: 0,
            }),
    {
        Exchange { address: address.to_owned(), id, datagram, confirmable, timeout, attempt: 0 }
    }

    /// Whom the request goes to.
    #[must_use]
    pub fn address(&self) -> (address: &str)
        ensures
            address@ == self@.address,
    {
        self.address.as_str()
    }

    /// The request on the wire.
    #[must_use]
    pub fn datagram(&self) -> (datagram: &[u8])
        ensures
            datagram@ == self@.datagram,
    {
        self.datagram.as_slice()
    }

    /// How long the next acknowledgement is awaited, in nanoseconds.
    #[must_use]
    pub fn timeout(&self) -> (timeout: u128)
        ensures
            timeout == self@.timeout,
    {
        self.timeout
    }

    /// Whether `event` can be taken: it cannot where it has a wait doubled
    /// that is too long for that.
    #[must_use]
    pub fn can_take(&self, event: &Event) -> (yes: bool)
        ensures
            yes == can_double(self@, event@),
    {
        if self.attempt >= MAX_RETRANSMIT || self.timeout <= LONGEST_TIMEOUT / 2 {
            return true;
        }
        match event {
            Event::Sent => true,
            Event::Arrived { datagram, left } => match decode(datagram.as_slice()) {
                Ok(response) => response.id == self.id || *left > 0,
                Err(_) => true,
            },
            Event::Failed(failure) => !is_timeout(*failure),
        }
    }

    /// What to do now that the wait has run out.
    fn wait_out(&mut self) -> (step: Step)
        requires
            old(self)@.attempt < MAX_RETRANSMIT ==> 2 * old(self)@.timeout <= LONGEST_TIMEOUT,
        ensures
            (final(self)@, step@) == waited_out(old(self)@),
    {
        if self.attempt < MAX_RETRANSMIT {
            self.attempt = self.attempt + 1;
            self.timeout = self.timeout * 2;
            Step::Send
        } else {
            Step::Refused(CoapError::NotAcknowledged)
        }
    }

    /// Takes `event`, and says what is to be done next. What is done first is
    /// to send the request.
    pub fn step(&mut self, event: Event) -> (step: Step)
        requires
            can_double(old(self)@, event@),
        ensures
            (final(self)@, step@) == stepped(old(self)@, event@),
            event matches Event::Arrived { datagram, .. } ==> decoding(datagram@) matches Ok(
                message,
            ) ==> message.id == old(self)@.id && message.code < 128 && message.kind != Kind::Reset
                ==> step is Done && step->Done_0@ == message,
            step == Step::Refused(CoapError::PeerReset) ==> {
                &&& event matches Event::Arrived { datagram, .. }
                &&& decoding(datagram@) matches Ok(message)
                &&& message.kind == Kind::Reset
                &&& message.id == old(self)@.id
            },
    {
        proof {
            only_a_reset_is_one(self@, event@);
        }
        match event {
            Event::Sent => if self.confirmable {
                Step::Await(self.timeout)
            } else {
                let message: Message = Message::request(Kind::NonConfirmable, 0, self.id, "", &[]);
                proof {
                    reveal_strlit("");
                    assert(""@ =~= Seq::empty());
                    assert(message@ == no_answer(self.id));
                }
                Step::Done(message)
            },
            Event::Arrived { datagram, left } => match decode(datagram.as_slice()) {
                Err(error) => Step::Refused(error),
                Ok(response) => if response.id != self.id {
                    if left > 0 {
                        Step::Await(left)
                    } else {
                        self.wait_out()
                    }
                } else if response.code / 32 >= 4 {
                    Step::Refused(CoapError::PeerAnswered(response.code))
                } else if response.kind == Kind::Reset {
                    Step::Refused(CoapError::PeerReset)
                } else {
                    Step::Done(response)
                },
            },
            Event::Failed(failure) => if is_timeout(failure) {
                self.wait_out()
            } else {
                Step::Broken
            },
        }
    }
}

/// What an exchange has become after `events`.
pub open spec fn run(exchange: ExchangeView, events: Seq<EventView>) -> ExchangeView
    decreases events.len(),
{
    if events.len() == 0 {
        exchange
    } else {
        stepped(run(exchange, events.drop_last()), events.last()).0
    }
}

/// How often an exchange has its request sent, up to and with what it does
/// after `events`.
pub open spec fn transmissions(exchange: ExchangeView, events: Seq<EventView>) -> nat
    decreases events.len(),
{
    if events.len() == 0 {
        1
    } else {
        transmissions(exchange, events.drop_last()) + if stepped(
            run(exchange, events.drop_last()),
            events.last(),
        ).1 is Send {
            1nat
        } else {
            0
        }
    }
}

/// Silence after each of several transmissions: each is sent, and then the
/// socket reports one of `failures`.
pub open spec fn silence(failures: Seq<Failure>) -> Seq<EventView>
    decreases failures.len(),
{
    if failures.len() == 0 {
        Seq::empty()
    } else {
        silence(failures.drop_last()).push(EventView::Sent).push(
            EventView::Failed(failures.last()),
        )
    }
}

/// With `event` the wait for an acknowledgement is over: the socket says so, or
/// nothing was left of it when something arrived.
pub open spec fn wait_ran_out(event: EventView) -> bool {
    match event {
        EventView::Sent => false,
        EventView::Arrived { left, .. } => left == 0,
        EventView::Failed(failure) => timed_out(failure),
    }
}

/// Only when the wait runs out is a request sent again, and each time it is,
/// an attempt is used and the wait doubled. Nothing else changes an exchange.
pub proof fn only_silence_retransmits(exchange: ExchangeView, event: EventView)
    ensures
        stepped(exchange, event).1 is Send ==> {
            &&& wait_ran_out(event)
            &&& stepped(exchange, event).0 == (ExchangeView {
                attempt: exchange.attempt + 1,
                timeout: 2 * exchange.timeout,
                ..exchange
            })
        },
        !(stepped(exchange, event).1 is Send) ==> stepped(exchange, event).0 == exchange,
{
}

/// What arrives under another message id before the wait runs out has nothing
/// sent and no attempt used: what is left of the wait is waited.
pub proof fn a_stray_reply_changes_nothing(exchange: ExchangeView, datagram: Seq<u8>, left: nat)
    requires
        decoding(datagram) is Ok,
        decoding(datagram)->Ok_0.id != exchange.id,
        left > 0,
    ensures
        stepped(exchange, EventView::Arrived { datagram, left }) == (
            exchange,
            StepView::Await(left),
        ),
{
}

/// Whatever happens, the wait is the first one, doubled for each
/// retransmission.
pub proof fn the_wait_doubles_with_each_retransmission(
    exchange: ExchangeView,
    events: Seq<EventView>,
)
    requires
        exchange.attempt == 0,
    ensures
        run(exchange, events).timeout == exchange.timeout * pow2(run(exchange, events).attempt),
    decreases events.len(),
{
    if events.len() == 0 {
        lemma2_to64();
        assert(exchange.timeout * pow2(0) == exchange.timeout) by (nonlinear_arith)
            requires
                pow2(0) == 1,
        ;
    } else {
        let before = run(exchange, events.drop_last());
        the_wait_doubles_with_each_retransmission(exchange, events.drop_last());
        only_silence_retransmits(before, events.last());
        if stepped(before, events.last()).1 is Send {
            lemma_pow2_unfold(before.attempt + 1);
            assert(2 * (exchange.timeout * pow2(before.attempt)) == exchange.timeout * (2 * pow2(
                before.attempt,
            ))) by (nonlinear_arith);
        }
    }
}

/// Every transmission of an exchange is the same datagram, under the same
/// message id, to the same address, whatever happens in between.
pub proof fn every_transmission_is_the_same(exchange: ExchangeView, events: Seq<EventView>)
    ensures
        run(exchange, events).datagram == exchange.datagram,
        run(exchange, events).id == exchange.id,
        run(exchange, events).address == exchange.address,
        run(exchange, events).confirmable == exchange.confirmable,
    decreases events.len(),
{
    if events.len() > 0 {
        every_transmission_is_the_same(exchange, events.drop_last());
    }
}

/// However things go, a request is retransmitted at most [`MAX_RETRANSMIT`]
/// times.
pub proof fn retransmissions_are_bounded(exchange: ExchangeView, events: Seq<EventView>)
    requires
        exchange.attempt == 0,
    ensures
        transmissions(exchange, events) == 1 + run(exchange, events).attempt,
        transmissions(exchange, events) <= 1 + MAX_RETRANSMIT,
    decreases events.len(),
{
    if events.len() > 0 {
        retransmissions_are_bounded(exchange, events.drop_last());
    }
}

/// A confirmable request that meets with silence is sent again, and each time
/// it is awaited twice as long.
pub proof fn silence_doubles_the_wait(exchange: ExchangeView, failures: Seq<Failure>)
    requires
        exchange.attempt == 0,
        exchange.confirmable,
        failures.len() <= MAX_RETRANSMIT,
        forall|i: int| 0 <= i < failures.len() ==> timed_out(#[trigger] failures[i]),
    ensures
        ({
            let now = run(exchange, silence(failures));
            &&& now.attempt == failures.len()
            &&& now.timeout == exchange.timeout * pow2(failures.len())
            &&& transmissions(exchange, silence(failures)) == 1 + failures.len()
            &&& stepped(now, EventView::Sent).1 == StepView::Await(
                exchange.timeout * pow2(failures.len()),
            )
        }),
    decreases failures.len(),
{
    let events = silence(failures);
    every_transmission_is_the_same(exchange, events);
    the_wait_doubles_with_each_retransmission(exchange, events);
    if failures.len() > 0 {
        let before = silence(failures.drop_last());
        let sent = before.push(EventView::Sent);
        assert(events.drop_last() =~= sent);
        assert(sent.drop_last() =~= before);
        assert forall|i: int| 0 <= i < failures.drop_last().len() implies timed_out(
            #[trigger] failures.drop_last()[i],
        ) by {
            assert(failures.drop_last()[i] == failures[i]);
        }
        silence_doubles_the_wait(exchange, failures.drop_last());
        every_transmission_is_the_same(exchange, before);
        assert(timed_out(failures.last()));
        assert(run(exchange, sent) == run(exchange, before));
        assert(transmissions(exchange, sent) == transmissions(exchange, before));
        assert(transmissions(exchange, events) == transmissions(exchange, before) + 1);
    }
}

/// How long an exchange awaits acknowledgements in all, where after each
/// transmission among `events` the whole wait is waited.
pub open spec fn awaited(exchange: ExchangeView, events: Seq<EventView>) -> nat
    decreases events.len(),
{
    if events.len() == 0 {
        0
    } else {
        awaited(exchange, events.drop_last()) + match stepped(
            run(exchange, events.drop_last()),
            events.last(),
        ).1 {
            StepView::Await(timeout) => if events.last() is Sent {
                timeout
            } else {
                0
            },
            _ => 0,
        }
    }
}

/// A peer that went away is waited for a bounded time: after each silence the
/// waits add up to the first one times a power of two less one.
pub proof fn silence_is_awaited_so_long(exchange: ExchangeView, failures: Seq<Failure>)
    requires
        exchange.attempt == 0,
        exchange.confirmable,
        failures.len() <= MAX_RETRANSMIT,
        forall|i: int| 0 <= i < failures.len() ==> timed_out(#[trigger] failures[i]),
    ensures
        awaited(exchange, silence(failures)) == exchange.timeout * (pow2(failures.len()) - 1),
        awaited(exchange, silence(failures).push(EventView::Sent)) == exchange.timeout * (pow2(
            failures.len() + 1,
        ) - 1),
    decreases failures.len(),
{
    let events = silence(failures);
    let timeout = exchange.timeout as int;
    let power = pow2(failures.len()) as int;
    if failures.len() == 0 {
        lemma2_to64();
        assert(timeout * (power - 1) == 0) by (nonlinear_arith)
            requires
                power == 1,
        ;
    } else {
        let before = failures.drop_last();
        assert forall|i: int| 0 <= i < before.len() implies timed_out(#[trigger] before[i]) by {
            assert(before[i] == failures[i]);
        }
        silence_is_awaited_so_long(exchange, before);
        assert(events.drop_last() =~= silence(before).push(EventView::Sent));
    }
    silence_doubles_the_wait(exchange, failures);
    assert(events.push(EventView::Sent).drop_last() =~= events);
    lemma_pow2_unfold(failures.len() + 1);
    assert(timeout * (power - 1) + timeout * power == timeout * (2 * power - 1))
        by (nonlinear_arith);
    assert(awaited(exchange, events) == timeout * (power - 1));
    assert(stepped(run(exchange, events), EventView::Sent).1 == StepView::Await(
        exchange.timeout * pow2(failures.len()),
    ));
}

/// A request that meets with silence every time is not acknowledged in the end.
pub proof fn the_last_silence_ends_it(
    exchange: ExchangeView,
    failures: Seq<Failure>,
    last: Failure,
)
    requires
        exchange.attempt == 0,
        exchange.confirmable,
        failures.len() == MAX_RETRANSMIT,
        forall|i: int| 0 <= i < failures.len() ==> timed_out(#[trigger] failures[i]),
        timed_out(last),
    ensures
        stepped(run(exchange, silence(failures)), EventView::Failed(last)).1 == StepView::Refused(
            CoapError::NotAcknowledged,
        ),
{
    silence_doubles_the_wait(exchange, failures);
}

/// A request is given up for want of an acknowledgement only when the wait
/// runs out after it was retransmitted [`MAX_RETRANSMIT`] times.
pub proof fn given_up_only_at_the_last(
    exchange: ExchangeView,
    events: Seq<EventView>,
    event: EventView,
)
    requires
        exchange.attempt == 0,
        stepped(run(exchange, events), event).1 == StepView::Refused(CoapError::NotAcknowledged),
    ensures
        wait_ran_out(event),
        transmissions(exchange, events) == 1 + MAX_RETRANSMIT,
{
    retransmissions_are_bounded(exchange, events);
    if let EventView::Arrived { datagram, .. } = event {
        lemma_reading_never_gives_up(datagram);
    }
}

proof fn lemma_reading_never_gives_up(datagram: Seq<u8>)
    ensures
        decoding(datagram) != Err::<MessageView, CoapError>(CoapError::NotAcknowledged),
{
    if datagram.len() >= 4 && 4 + datagram[0] as int % 16 <= datagram.len() {
        lemma_options_never_give_up(datagram, 4 + datagram[0] as int % 16, 0);
    }
}

proof fn lemma_options_never_give_up(datagram: Seq<u8>, at: int, last: int)
    requires
        0 <= at,
    ensures
        options_at(datagram, at, last) != Err::<(Seq<OptionView>, int), CoapError>(
            CoapError::NotAcknowledged,
        ),
    decreases datagram.len() - at,
{
    if at < datagram.len() && datagram[at] != PAYLOAD_MARKER {
        if let Ok((option, behind)) = option_at(datagram, at, last) {
            lemma_options_never_give_up(datagram, behind, option.0 as int);
        }
    }
}

/// A request that is not confirmable is done with once it is sent.
pub proof fn fire_and_forget(exchange: ExchangeView)
    requires
        !exchange.confirmable,
    ensures
        stepped(exchange, EventView::Sent) == (exchange, StepView::Done(no_answer(exchange.id))),
{
}

} // verus!
