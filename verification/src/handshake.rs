//! The opening of a session: both sides must run the same build.
use vstd::prelude::*;

use crate::protocol;
use crate::protocol::{ErrorV, Frame, SessionError};
use crate::text;

verus! {

/// Whether a frame opens a session for a build.
pub open spec fn opens(frame: Frame, build: Seq<char>) -> bool {
    frame matches Frame::Hello { fingerprint } && fingerprint@ == build
}

/// The client's opening.
pub fn hello(build: &str) -> (frame: Frame)
    ensures
        opens(frame, build@),
        frame matches Frame::Hello { fingerprint } && fingerprint@ == build@,
{
    Frame::Hello { fingerprint: text::copy_str(build) }
}

/// What the client makes of the server's answer.
pub open spec fn client_verdict(frame: Frame) -> Result<(), ErrorV> {
    match frame {
        Frame::HelloAck { fingerprint, accepted } => if accepted {
            Ok(())
        } else {
            Err(ErrorV::HandshakeRejected(fingerprint@))
        },
        Frame::Error { message } => Err(ErrorV::Other("Peer rejected handshake: "@ + message@)),
        _ => Err(ErrorV::Other("Expected HelloAck"@)),
    }
}

/// Decide about the server's answer.
pub fn client(frame: Frame) -> (r: Result<(), SessionError>)
    ensures
        match client_verdict(frame) {
            Ok(_) => r is Ok,
            Err(e) => r matches Err(f) && f@ == e,
        },
{
    match frame {
        Frame::HelloAck { fingerprint, accepted } => if accepted {
            Ok(())
        } else {
            Err(SessionError::HandshakeRejected { peer_build: fingerprint })
        },
        Frame::Error { message } => Err(
            protocol::error_of("Peer rejected handshake: ", message.as_str()),
        ),
        _ => Err(protocol::plain_error("Expected HelloAck")),
    }
}

/// What the server makes of the client's opening.
pub open spec fn server_verdict(frame: Frame, build: Seq<char>) -> Result<(), ErrorV> {
    match frame {
        Frame::Hello { fingerprint } => if fingerprint@ == build {
            Ok(())
        } else {
            Err(
                ErrorV::Other(
                    "Peer build "@ + fingerprint@ + " incompatible with local build "@ + build,
                ),
            )
        },
        Frame::Error { message } => Err(ErrorV::Other("Peer error: "@ + message@)),
        _ => Err(ErrorV::Other("Expected Hello"@)),
    }
}

/// What the server answers: only an opening is answered, with the server's own
/// build and whether it is the client's.
pub open spec fn answers(frame: Frame, build: Seq<char>, reply: Option<Frame>) -> bool {
    match frame {
        Frame::Hello { fingerprint } => reply matches Some(r) && (r matches Frame::HelloAck {
            fingerprint: own,
            accepted,
        } && own@ == build && accepted == (fingerprint@ == build)),
        _ => reply is None,
    }
}

/// Decide about the client's opening. The first result is the answer to send,
/// if there is one, before the second takes effect.
pub fn server(frame: Frame, build: &str) -> (r: (Option<Frame>, Result<(), SessionError>))
    ensures
        answers(frame, build@, r.0),
        match server_verdict(frame, build@) {
            Ok(_) => r.1 is Ok,
            Err(e) => r.1 matches Err(f) && f@ == e,
        },
{
    match frame {
        Frame::Hello { fingerprint } => {
            let accepted = text::same(fingerprint.as_str(), build);
            let reply = Frame::HelloAck { fingerprint: text::copy_str(build), accepted };
            if accepted {
                (Some(reply), Ok(()))
            } else {
                let mut m = text::copy_str("Peer build ");
                text::push_text(&mut m, fingerprint.as_str());
                text::push_text(&mut m, " incompatible with local build ");
                text::push_text(&mut m, build);
                (Some(reply), Err(SessionError::Other(m)))
            }
        },
        Frame::Error { message } => (
            None,
            Err(protocol::error_of("Peer error: ", message.as_str())),
        ),
        _ => (None, Err(protocol::plain_error("Expected Hello"))),
    }
}

/// Both sides agree on the opening: they go on exactly when they run the same
/// build, and a client that is turned away learns which build the server runs.
pub proof fn law_only_equal_builds_talk(
    client_build: String,
    server_build: Seq<char>,
    reply: Frame,
)
    requires
        answers((Frame::Hello { fingerprint: client_build }), server_build, Some(reply)),
    ensures
        client_verdict(reply) is Ok <==> client_build@ == server_build,
        server_verdict((Frame::Hello { fingerprint: client_build }), server_build) is Ok
            <==> client_build@ == server_build,
        client_build@ != server_build ==> client_verdict(reply) == Err::<(), ErrorV>(
            ErrorV::HandshakeRejected(server_build),
        ),
{
}

/// A client's opening is taken by a server of the same build and by no other:
/// what the client sends is its own build, and what it makes of the answer
/// follows from the two builds alone.
pub proof fn law_openings_tell_the_own_build(
    opening: Frame,
    reply: Option<Frame>,
    client_build: Seq<char>,
    server_build: Seq<char>,
)
    requires
        opens(opening, client_build),
        answers(opening, server_build, reply),
    ensures
        reply is Some,
        client_verdict(reply->0) is Ok <==> client_build == server_build,
        server_verdict(opening, server_build) is Ok <==> client_build == server_build,
        client_build != server_build ==> server_verdict(opening, server_build) == Err::<(), ErrorV>(
            ErrorV::Other(
                "Peer build "@ + client_build + " incompatible with local build "@ + server_build,
            ),
        ),
{
}

/// Anything but an opening is refused without an answer, and anything but an
/// answer to it ends the session on the client's side; what the peer reports
/// with a failure is passed on.
pub proof fn law_other_frames_end_the_handshake(
    frame: Frame,
    build: Seq<char>,
    reply: Option<Frame>,
)
    requires
        answers(frame, build, reply),
    ensures
        !(frame is Hello) ==> reply is None && server_verdict(frame, build) is Err,
        !(frame is HelloAck) ==> client_verdict(frame) is Err,
        frame matches Frame::Error { message } ==> server_verdict(frame, build) == Err::<
            (),
            ErrorV,
        >(ErrorV::Other("Peer error: "@ + message@)) && client_verdict(frame) == Err::<(), ErrorV>(
            ErrorV::Other("Peer rejected handshake: "@ + message@),
        ),
        frame matches Frame::HelloAck { accepted, .. } ==> (client_verdict(frame) is Ok
            <==> accepted),
{
}

} // verus!
