//! The bridge of a Head: clients speak to a Crawl through it.

use crate::proto::{NotRelayable, RadiiMessage, RelayedMessage};
use vstd::prelude::*;

verus! {

/// What the bridge does with a client's message.
#[derive(Debug)]
pub enum BridgeStep {
    /// Answer the client with `ack`, for that reason, and read on.
    Refuse { ack: RadiiMessage, reason: NotRelayable },
    /// Hand this to Crawl, and Crawl's answer to the client.
    Relay(RadiiMessage),
}

/// Wraps a client's message for Crawl. `source` is where the message came
/// from, `client_identity` what the handshake proved of the client: the Head
/// reports it truthfully, and Crawl decides what the client may claim.
pub fn bridge(source: &str, client_identity: &Option<String>, message: RadiiMessage) -> (r:
    BridgeStep)
    ensures
        match r {
            BridgeStep::Refuse { ack, reason } => {
                &&& !crate::proto::relayable(message@)
                &&& ack@ == (crate::proto::MessageView::Ack {
                    status: "unsupported_relay_message"@,
                })
                &&& reason.message@ == crate::shown::message_text(message@)
            },
            BridgeStep::Relay(wrapped) => {
                &&& crate::proto::relayable(message@)
                &&& wrapped@ is FromHead
                &&& wrapped@->source == source@
                &&& wrapped@->client_identity == crate::proto::opt_text(*client_identity)
                &&& wrapped@->FromHead_message.direct() == message@
            },
        },
{
    match RelayedMessage::try_from(message) {
        Err(reason) => BridgeStep::Refuse {
            ack: RadiiMessage::Ack { status: "unsupported_relay_message".to_owned() },
            reason,
        },
        Ok(relayed) => {
            proof {
                crate::proto::law_relayable_is_direct(message@);
                assert(relayed@.direct() == message@);
            }
            let identity: Option<String> = match client_identity {
                None => None,
                Some(id) => Some(id.clone()),
            };
            BridgeStep::Relay(
                RadiiMessage::FromHead {
                    source: source.to_owned(),
                    client_identity: identity,
                    message: relayed,
                },
            )
        },
    }
}

/// What to do next for a message that is to be relayed.
#[derive(Debug, Clone, Copy, PartialEq, Eq)]
pub enum SessionStep {
    /// Open a session with Crawl.
    Dial,
    /// Send over the session that is there.
    Send,
    /// End the client's connection.
    GiveUp,
}

/// One session with Crawl serves all messages of a client. It is opened for
/// the first of them, and once more for a message that an old session lost.
#[derive(Debug, Clone, Copy)]
pub struct Session {
    pub connected: bool,
    /// How often the message at hand was lost.
    pub lost: u8,
}

impl Session {
    /// No session yet.
    pub fn start() -> (r: Self)
        ensures
            r == (Session { connected: false, lost: 0 }),
    {
        Session { connected: false, lost: 0 }
    }

    /// What to do now.
    pub fn step(&self) -> (r: SessionStep)
        ensures
            r == self.next_step(),
    {
        if self.lost > 1 {
            SessionStep::GiveUp
        } else if self.connected {
            SessionStep::Send
        } else {
            SessionStep::Dial
        }
    }

    pub open spec fn next_step(self) -> SessionStep {
        if self.lost > 1 {
            SessionStep::GiveUp
        } else if self.connected {
            SessionStep::Send
        } else {
            SessionStep::Dial
        }
    }

    /// The session is open.
    pub fn dialed(&mut self)
        ensures
            *final(self) == (Session { connected: true, ..*old(self) }),
    {
        self.connected = true;
    }

    /// Crawl answered. The session stays for the next message.
    pub fn answered(&mut self)
        ensures
            *final(self) == (Session { lost: 0, ..*old(self) }),
    {
        self.lost = 0;
    }

    /// The session broke over the message at hand.
    pub fn lose(&mut self)
        ensures
            *final(self) == old(self).after_loss(),
    {
        self.connected = false;
        if self.lost < 2 {
            self.lost = self.lost + 1;
        }
    }

    pub open spec fn after_loss(self) -> Self {
        Session {
            connected: false,
            lost: if self.lost < 2 {
                (self.lost + 1) as u8
            } else {
                self.lost
            },
        }
    }
}

/// A message that a session lost is sent once more over a new one, and not a
/// third time; an answered message leaves a session that serves the next one
/// without a new dial.
pub proof fn law_one_retry_per_message(s: Session)
    requires
        s.lost == 0,
    ensures
        s.after_loss().next_step() == SessionStep::Dial,
        (Session { connected: true, ..s.after_loss() }).next_step() == SessionStep::Send,
        (Session { connected: true, ..s.after_loss() }).after_loss().next_step()
            == SessionStep::GiveUp,
        (Session { connected: true, ..s }).next_step() == SessionStep::Send,
{
}

/// A relayed registration or report whose client did not prove to be the node
/// that it speaks for changes nothing at Crawl, whichever Head relays it and
/// whatever it says of its source.
pub proof fn law_relaying_grants_nothing(
    s: crate::crawl::CrawlView,
    head: Seq<char>,
    client: Option<Seq<char>>,
    source: Seq<char>,
    m: crate::proto::RelayedView,
    now: u64,
)
    requires
        m.claim() is Some,
        client != m.claim(),
    ensures
        s.after(
            Some(head),
            crate::proto::MessageView::FromHead { source, client_identity: client, message: m },
            now,
        ) == s,
{
}

/// What a session does next: it gives up on a message that was lost twice, and
/// else sends where it is connected and dials where it is not. A loss ends the
/// connection and is counted.
pub proof fn law_session_steps(s: Session)
    ensures
        s.lost >= 2 <==> s.next_step() == SessionStep::GiveUp,
        s.lost < 2 && s.connected <==> s.next_step() == SessionStep::Send,
        s.lost < 2 && !s.connected <==> s.next_step() == SessionStep::Dial,
        !s.after_loss().connected,
        s.lost < 2 ==> s.after_loss().lost == s.lost + 1,
        s.lost >= 2 ==> s.after_loss().lost == s.lost,
{
}

} // verus!
