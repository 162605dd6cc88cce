//! The service that some consoles ask whether they may use the server.

use crate::browse;
use crate::number;
use crate::soap;
use crate::soap::Reply;
use crate::text;
use vstd::prelude::*;

verus! {

/// The MediaReceiverRegistrar service.
pub const MRR_SERVICE: &'static str = "urn:microsoft.com:service:X_MS_MediaReceiverRegistrar:1";

/// The reply to a request to the MediaReceiverRegistrar: everyone is welcome.
pub open spec fn registrar_reply(soapaction: Option<Seq<char>>) -> (u16, Seq<char>) {
    let action = soap::requested_action(soapaction);
    if action == "IsAuthorized"@ || action == "IsValidated"@ {
        (200u16, soap::response_text(action, MRR_SERVICE@, "<Result>1</Result>"@))
    } else if action == "RegisterDevice"@ {
        (
            200u16,
            soap::response_text(
                action,
                MRR_SERVICE@,
                "<RegistrationRespMsg></RegistrationRespMsg>"@,
            ),
        )
    } else {
        soap::invalid_action()
    }
}

/// Answers a request to the MediaReceiverRegistrar, given its `SOAPACTION` header.
pub fn handle(soapaction: Option<&str>) -> (r: Reply)
    ensures
        soap::reply_view(r) == registrar_reply(browse::header_text(soapaction)),
{
    let action = soap::request_action(soapaction);
    if text::same_text(action.as_str(), "IsAuthorized") || text::same_text(
        action.as_str(),
        "IsValidated",
    ) {
        soap::ok(soap::response(action.as_str(), MRR_SERVICE, "<Result>1</Result>"))
    } else if text::same_text(action.as_str(), "RegisterDevice") {
        soap::ok(
            soap::response(
                "RegisterDevice",
                MRR_SERVICE,
                "<RegistrationRespMsg></RegistrationRespMsg>",
            ),
        )
    } else {
        soap::refuse_action()
    }
}

/// Whoever asks the registrar whether they may use the server is told that they
/// may, and an action that it does not have is refused.
pub proof fn law_everyone_is_welcome(action: Seq<char>)
    requires
        action.len() > 0,
        action.first() != '"',
        action.last() != '"',
        text::is_graphic(action.last()),
        forall|i: int| 0 <= i < action.len() ==> #[trigger] action[i] != '#',
    ensures
        ({
            let header = MRR_SERVICE@ + "#"@ + action;
            let reply = registrar_reply(Some(header));
            &&& action == "IsAuthorized"@ || action == "IsValidated"@ ==> reply.0 == 200
                && text::contains(reply.1, "<Result>1</Result>"@)
            &&& action == "RegisterDevice"@ ==> reply.0 == 200
            &&& action != "IsAuthorized"@ && action != "IsValidated"@ && action
                != "RegisterDevice"@ ==> reply.0 == 500 && text::contains(
                reply.1,
                "<errorCode>"@ + number::decimal(401) + "</errorCode>"@,
            )
        }),
{
    let none = Seq::<char>::empty();
    reveal_strlit("urn:microsoft.com:service:X_MS_MediaReceiverRegistrar:1");
    soap::law_actions_are_read(none, MRR_SERVICE@, action, none);
    assert(none + (MRR_SERVICE@ + "#"@ + action) + none =~= MRR_SERVICE@ + "#"@ + action);
    soap::law_faults_tell_the_error(401, "Invalid Action"@);
    let inner = "<Result>1</Result>"@;
    assert(inner.subrange(0, inner.len() as int) =~= inner);
    assert(text::occurs_at(inner, inner, 0));
    lemma_inner(action, MRR_SERVICE@, inner);
    reveal_strlit("IsAuthorized");
    reveal_strlit("IsValidated");
    reveal_strlit("RegisterDevice");
    assert("RegisterDevice"@[0] == 'R' && "IsAuthorized"@[0] == 'I' && "IsValidated"@[0] == 'I');
}

/// A reply holds what was put into it.
proof fn lemma_inner(action: Seq<char>, service: Seq<char>, inner: Seq<char>)
    ensures
        text::contains(soap::response_text(action, service, inner), inner),
{
    broadcast use text::lemma_longer_contains;

    assert(inner.subrange(0, inner.len() as int) =~= inner);
    assert(text::occurs_at(inner, inner, 0));
    assert(text::contains(inner, inner));
}

} // verus!
