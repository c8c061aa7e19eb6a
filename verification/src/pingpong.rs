//! The ping endpoint's per-connection state machine.
//!
//! Each connection starts `unserved`. The literal text "serve" moves it to
//! `served` (idempotently), and the flag never resets. While `served`, the
//! literal text "ping" earns exactly one "pong" reply; any other input, or a
//! "ping" before the first "serve", is silently ignored.

use vstd::prelude::*;

verus! {

/// Per-connection state of the ping endpoint. Independent of the chat
/// registry: no cross-connection state exists here.
pub struct TableTennis {
    served: bool,
}

/// What one inbound text frame does to a ping endpoint connection:
/// `post` is the state after the frame, `reply` the outbound text, if any.
pub open spec fn pingpong_post(
    pre: TableTennis,
    post: TableTennis,
    text: Seq<char>,
    reply: Option<Seq<char>>,
) -> bool {
    &&& post.is_served() == (pre.is_served() || text == "serve"@)
    &&& (reply is Some) <==> (text == "ping"@ && pre.is_served())
    &&& (reply matches Some(p) ==> p == "pong"@)
}

impl TableTennis {
    /// Whether this connection has already received "serve".
    pub closed spec fn is_served(self) -> bool {
        self.served
    }

    /// A fresh connection: no "serve" seen yet.
    pub fn new() -> (s: TableTennis)
        ensures
            !s.is_served(),
    {
        TableTennis { served: false }
    }

    /// Feed one inbound text frame; the result is the reply to send, if any.
    pub fn on_text(&mut self, text: &String) -> (reply: Option<String>)
        ensures
            pingpong_post(*old(self), *final(self), text@, reply.deep_view()),
    {
        proof {
            reveal_strlit("serve");
            reveal_strlit("ping");
            assert("serve"@.len() == 5);
            assert("ping"@.len() == 4);
            assert("serve"@ != "ping"@);
        }
        let serve = "serve".to_owned();
        if text.eq(&serve) {
            self.served = true;
            None
        } else {
            let ping = "ping".to_owned();
            if text.eq(&ping) && self.served {
                Some("pong".to_owned())
            } else {
                None
            }
        }
    }
}

/// Gating law: a "ping" before any "serve" draws no reply; "serve" then
/// "ping" draws exactly one "pong"; over the inputs "ping", "serve", "ping"
/// only the second "ping" is answered.
pub proof fn lemma_ping_pong_gating(
    s0: TableTennis,
    s1: TableTennis,
    s2: TableTennis,
    s3: TableTennis,
    r1: Option<Seq<char>>,
    r2: Option<Seq<char>>,
    r3: Option<Seq<char>>,
)
    requires
        !s0.is_served(),
        pingpong_post(s0, s1, "ping"@, r1),
        pingpong_post(s1, s2, "serve"@, r2),
        pingpong_post(s2, s3, "ping"@, r3),
    ensures
        r1 is None,
        r2 is None,
        r3 matches Some(p) && p == "pong"@,
{
    reveal_strlit("serve");
    reveal_strlit("ping");
    assert("serve"@.len() == 5);
    assert("ping"@.len() == 4);
    assert("serve"@ != "ping"@);
}

} // verus!
