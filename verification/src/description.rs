//! The description of the device that clients fetch.

use crate::library::DlnaConfig;
use crate::text;
use crate::xml;
use vstd::prelude::*;

verus! {

/// One entry of the list of services: its type, its id, and the name that its
/// URLs go by.
pub open spec fn service_text(
    service_type: Seq<char>,
    service_id: Seq<char>,
    name: Seq<char>,
) -> Seq<char> {
    "<service><serviceType>"@ + service_type + "</serviceType><serviceId>"@ + service_id
        + "</serviceId><SCPDURL>/upnp/service/"@ + name
        + ".xml</SCPDURL><controlURL>/upnp/control/"@ + name
        + "</controlURL><eventSubURL>/upnp/event/"@ + name + "</eventSubURL></service>\n"@
}

/// Writes one entry of the list of services.
fn push_service(r: &mut String, service_type: &str, service_id: &str, name: &str)
    ensures
        final(r)@ == old(r)@ + service_text(service_type@, service_id@, name@),
{
    let ghost start = r@;
    r.append("<service><serviceType>");
    r.append(service_type);
    r.append("</serviceType><serviceId>");
    r.append(service_id);
    r.append("</serviceId><SCPDURL>/upnp/service/");
    r.append(name);
    r.append(".xml</SCPDURL><controlURL>/upnp/control/");
    r.append(name);
    r.append("</controlURL><eventSubURL>/upnp/event/");
    r.append(name);
    r.append("</eventSubURL></service>\n");
    assert(r@ =~= start + service_text(service_type@, service_id@, name@));
}

/// What stands before the server's address.
pub const DOCUMENT_HEAD: &'static str = "<?xml version=\"1.0\" encoding=\"utf-8\"?>\n\
<root xmlns=\"urn:schemas-upnp-org:device-1-0\" \
xmlns:dlna=\"urn:schemas-dlna-org:device-1-0\">\n\
<specVersion><major>1</major><minor>0</minor></specVersion>\n<URLBase>http://";

/// What stands before the device's name.
pub const DEVICE_HEAD: &'static str = "</URLBase>\n<device>\n\
<deviceType>urn:schemas-upnp-org:device:MediaServer:1</deviceType>\n\
<dlna:X_DLNADOC>DMS-1.50</dlna:X_DLNADOC>\n<friendlyName>";

/// What stands between the device's name and its id.
pub const DEVICE_MAKER: &'static str = "</friendlyName>\n\
<manufacturer>Spritz</manufacturer>\n\
<manufacturerURL>https://github.com/dfallman/spritz</manufacturerURL>\n\
<modelDescription>Nano DLNA media server</modelDescription>\n\
<modelName>Spritz</modelName>\n\
<modelNumber>0.1.6</modelNumber>\n<UDN>uuid:";

/// The list of the device's icons.
pub const ICON_LIST: &'static str = "</UDN>\n\
<iconList><icon><mimetype>image/png</mimetype><width>48</width><height>48</height>\
<depth>32</depth><url>/upnp/icon.png</url></icon></iconList>\n<serviceList>\n";

/// The description of a media server that offers its contents, its connections
/// and the registrar that some consoles ask for.
pub open spec fn description_text(
    uuid: Seq<char>,
    friendly_name: Seq<char>,
    base: Seq<char>,
) -> Seq<char> {
    DOCUMENT_HEAD@ + base + "/"@ + DEVICE_HEAD@ + xml::escaped(friendly_name) + DEVICE_MAKER@
        + xml::escaped(uuid) + ICON_LIST@ + service_text(
        "urn:schemas-upnp-org:service:ContentDirectory:1"@,
        "urn:upnp-org:serviceId:ContentDirectory"@,
        "contentdirectory"@,
    ) + service_text(
        "urn:schemas-upnp-org:service:ConnectionManager:1"@,
        "urn:upnp-org:serviceId:ConnectionManager"@,
        "connectionmanager"@,
    ) + service_text(
        "urn:microsoft.com:service:X_MS_MediaReceiverRegistrar:1"@,
        "urn:microsoft.com:serviceId:X_MS_MediaReceiverRegistrar"@,
        "mediareceiverregistrar"@,
    ) + "</serviceList>\n</device>\n</root>\n"@
}

/// Describes the device to a client that reaches it under `base`.
pub fn device_description(config: &DlnaConfig, base: &str) -> (r: String)
    ensures
        r@ == description_text(config.device_uuid@, config.friendly_name@, base@),
{
    let mut r = String::from_str(DOCUMENT_HEAD);
    r.append(base);
    r.append("/");
    r.append(DEVICE_HEAD);
    r.append(xml::xml_escape(config.friendly_name.as_str()).as_str());
    r.append(DEVICE_MAKER);
    r.append(xml::xml_escape(config.device_uuid.as_str()).as_str());
    r.append(ICON_LIST);
    push_service(
        &mut r,
        "urn:schemas-upnp-org:service:ContentDirectory:1",
        "urn:upnp-org:serviceId:ContentDirectory",
        "contentdirectory",
    );
    push_service(
        &mut r,
        "urn:schemas-upnp-org:service:ConnectionManager:1",
        "urn:upnp-org:serviceId:ConnectionManager",
        "connectionmanager",
    );
    push_service(
        &mut r,
        "urn:microsoft.com:service:X_MS_MediaReceiverRegistrar:1",
        "urn:microsoft.com:serviceId:X_MS_MediaReceiverRegistrar",
        "mediareceiverregistrar",
    );
    r.append("</serviceList>\n</device>\n</root>\n");
    r
}

/// An entry holds its type, its id, and the three addresses of the service.
proof fn lemma_service_entry(service_type: Seq<char>, service_id: Seq<char>, name: Seq<char>)
    ensures
        text::contains(
            service_text(service_type, service_id, name),
            "<serviceType>"@ + service_type + "</serviceType>"@,
        ),
        text::contains(
            service_text(service_type, service_id, name),
            "<controlURL>/upnp/control/"@ + name + "</controlURL>"@,
        ),
        text::contains(
            service_text(service_type, service_id, name),
            "<eventSubURL>/upnp/event/"@ + name + "</eventSubURL>"@,
        ),
{
    reveal_strlit("<service>");
    reveal_strlit("<serviceType>");
    reveal_strlit("<service><serviceType>");
    reveal_strlit("</serviceType>");
    reveal_strlit("<serviceId>");
    reveal_strlit("</serviceType><serviceId>");
    reveal_strlit("<controlURL>/upnp/control/");
    reveal_strlit(".xml</SCPDURL>");
    reveal_strlit(".xml</SCPDURL><controlURL>/upnp/control/");
    reveal_strlit("</controlURL>");
    reveal_strlit("<eventSubURL>/upnp/event/");
    reveal_strlit("</controlURL><eventSubURL>/upnp/event/");
    reveal_strlit("</eventSubURL>");
    reveal_strlit("</service>\n");
    reveal_strlit("</eventSubURL></service>\n");
    broadcast use text::lemma_longer_contains;

    let t = "<serviceType>"@ + service_type + "</serviceType>"@;
    assert("<service><serviceType>"@ + service_type + "</serviceType><serviceId>"@
        =~= "<service>"@ + t + "<serviceId>"@);
    text::lemma_between("<service>"@, t, "<serviceId>"@);
    let upto = "<service><serviceType>"@ + service_type + "</serviceType><serviceId>"@;
    assert(text::contains(upto, t));
    let c = "<controlURL>/upnp/control/"@ + name + "</controlURL>"@;
    let e = "<eventSubURL>/upnp/event/"@ + name + "</eventSubURL>"@;
    let front = upto + service_id + "</serviceId><SCPDURL>/upnp/service/"@ + name;
    let whole = service_text(service_type, service_id, name);
    assert(".xml</SCPDURL>"@ + c + ("<eventSubURL>/upnp/event/"@ + name + (
    "</eventSubURL></service>\n"@)) =~= ".xml</SCPDURL><controlURL>/upnp/control/"@ + name
        + "</controlURL><eventSubURL>/upnp/event/"@ + name + "</eventSubURL></service>\n"@);
    assert(whole =~= front + (".xml</SCPDURL><controlURL>/upnp/control/"@ + name
        + "</controlURL><eventSubURL>/upnp/event/"@ + name + "</eventSubURL></service>\n"@));
    text::lemma_between(
        ".xml</SCPDURL>"@,
        c,
        "<eventSubURL>/upnp/event/"@ + name + "</eventSubURL></service>\n"@,
    );
    let f = ".xml</SCPDURL><controlURL>/upnp/control/"@ + name + "</controlURL>"@;
    assert(f + e + "</service>\n"@ =~= ".xml</SCPDURL><controlURL>/upnp/control/"@ + name
        + "</controlURL><eventSubURL>/upnp/event/"@ + name + "</eventSubURL></service>\n"@);
    text::lemma_between(f, e, "</service>\n"@);
    assert(text::contains(front, t));
}

/// The description is that of a media server with three services, under the
/// address that the client uses, and with the device's name and id.
pub proof fn law_types_are_described(uuid: Seq<char>, friendly_name: Seq<char>, base: Seq<char>)
    ensures
        ({
            let d = description_text(uuid, friendly_name, base);
            &&& text::contains(
                d,
                "<deviceType>"@ + "urn:schemas-upnp-org:device:MediaServer:1"@
                    + "</deviceType>"@,
            )
            &&& text::contains(
                d,
                "<serviceType>"@ + "urn:schemas-upnp-org:service:ContentDirectory:1"@
                    + "</serviceType>"@,
            )
            &&& text::contains(
                d,
                "<serviceType>"@ + "urn:schemas-upnp-org:service:ConnectionManager:1"@
                    + "</serviceType>"@,
            )
            &&& text::contains(
                d,
                "<serviceType>"@ + "urn:microsoft.com:service:X_MS_MediaReceiverRegistrar:1"@
                    + "</serviceType>"@,
            )
        }),
{
    broadcast use text::lemma_longer_contains;

    reveal_strlit("<deviceType>");
    reveal_strlit("</deviceType>");
    reveal_strlit("urn:schemas-upnp-org:device:MediaServer:1");
    reveal_strlit(
        "</URLBase>\n<device>\n\
<deviceType>urn:schemas-upnp-org:device:MediaServer:1</deviceType>\n\
<dlna:X_DLNADOC>DMS-1.50</dlna:X_DLNADOC>\n<friendlyName>",
    );
    let it = "<deviceType>"@ + "urn:schemas-upnp-org:device:MediaServer:1"@ + "</deviceType>"@;
    assert(DEVICE_HEAD@.subrange(20, 86) =~= it);
    assert(text::occurs_at(DEVICE_HEAD@, it, 20));
    assert(text::contains(DEVICE_HEAD@, it));
    lemma_service_entry(
        "urn:schemas-upnp-org:service:ContentDirectory:1"@,
        "urn:upnp-org:serviceId:ContentDirectory"@,
        "contentdirectory"@,
    );
    lemma_service_entry(
        "urn:schemas-upnp-org:service:ConnectionManager:1"@,
        "urn:upnp-org:serviceId:ConnectionManager"@,
        "connectionmanager"@,
    );
    lemma_service_entry(
        "urn:microsoft.com:service:X_MS_MediaReceiverRegistrar:1"@,
        "urn:microsoft.com:serviceId:X_MS_MediaReceiverRegistrar"@,
        "mediareceiverregistrar"@,
    );
}

/// A service, its id and the name that its addresses go by.
pub open spec fn is_service(
    service_type: Seq<char>,
    service_id: Seq<char>,
    name: Seq<char>,
) -> bool {
    ||| service_type == "urn:schemas-upnp-org:service:ContentDirectory:1"@ && service_id
        == "urn:upnp-org:serviceId:ContentDirectory"@ && name == "contentdirectory"@
    ||| service_type == "urn:schemas-upnp-org:service:ConnectionManager:1"@ && service_id
        == "urn:upnp-org:serviceId:ConnectionManager"@ && name == "connectionmanager"@
    ||| service_type == "urn:microsoft.com:service:X_MS_MediaReceiverRegistrar:1"@ && service_id
        == "urn:microsoft.com:serviceId:X_MS_MediaReceiverRegistrar"@ && name
        == "mediareceiverregistrar"@
}

/// The description says of each service where it is described, where it is
/// controlled and where its events are subscribed to.
pub proof fn law_services_are_described(
    uuid: Seq<char>,
    friendly_name: Seq<char>,
    base: Seq<char>,
    service_type: Seq<char>,
    service_id: Seq<char>,
    name: Seq<char>,
)
    requires
        is_service(service_type, service_id, name),
    ensures
        text::contains(
            description_text(uuid, friendly_name, base),
            "<serviceType>"@ + service_type + "</serviceType>"@ + "<serviceId>"@ + service_id
                + "</serviceId>"@ + "<SCPDURL>/upnp/service/"@ + name + ".xml</SCPDURL>"@
                + "<controlURL>/upnp/control/"@ + name + "</controlURL>"@
                + "<eventSubURL>/upnp/event/"@ + name + "</eventSubURL>"@,
        ),
{
    broadcast use text::lemma_longer_contains;

    reveal_strlit("<service>");
    reveal_strlit("<serviceType>");
    reveal_strlit("<service><serviceType>");
    reveal_strlit("</serviceType>");
    reveal_strlit("<serviceId>");
    reveal_strlit("</serviceType><serviceId>");
    reveal_strlit("</serviceId>");
    reveal_strlit("<SCPDURL>/upnp/service/");
    reveal_strlit("</serviceId><SCPDURL>/upnp/service/");
    reveal_strlit(".xml</SCPDURL>");
    reveal_strlit("<controlURL>/upnp/control/");
    reveal_strlit(".xml</SCPDURL><controlURL>/upnp/control/");
    reveal_strlit("</controlURL>");
    reveal_strlit("<eventSubURL>/upnp/event/");
    reveal_strlit("</controlURL><eventSubURL>/upnp/event/");
    reveal_strlit("</eventSubURL>");
    reveal_strlit("</service>\n");
    reveal_strlit("</eventSubURL></service>\n");
    let it = "<serviceType>"@ + service_type + "</serviceType>"@ + "<serviceId>"@ + service_id
        + "</serviceId>"@ + "<SCPDURL>/upnp/service/"@ + name + ".xml</SCPDURL>"@
        + "<controlURL>/upnp/control/"@ + name + "</controlURL>"@ + "<eventSubURL>/upnp/event/"@
        + name + "</eventSubURL>"@;
    let entry = service_text(service_type, service_id, name);
    assert(entry =~= "<service>"@ + it + "</service>\n"@);
    text::lemma_between("<service>"@, it, "</service>\n"@);
    assert(text::contains(entry, it));
}

/// The description tells the device's name and its id, both spelled so that XML
/// reads them as they are, and the address that the client came to.
pub proof fn law_the_device_is_described(
    uuid: Seq<char>,
    friendly_name: Seq<char>,
    base: Seq<char>,
)
    ensures
        text::contains(
            description_text(uuid, friendly_name, base),
            "<URLBase>http://"@ + base + "/"@ + "</URLBase>"@,
        ),
        text::contains(
            description_text(uuid, friendly_name, base),
            "<friendlyName>"@ + xml::escaped(friendly_name) + "</friendlyName>"@,
        ),
        text::contains(
            description_text(uuid, friendly_name, base),
            "<UDN>uuid:"@ + xml::escaped(uuid) + "</UDN>"@,
        ),
{
    broadcast use text::lemma_longer_contains;

    lemma_head_ends();
    lemma_maker_begins();
    lemma_icons_begin();
    let n = xml::escaped(friendly_name);
    let u = xml::escaped(uuid);
    let front = DOCUMENT_HEAD@ + base + "/"@;
    let (a, b) = (DOCUMENT_HEAD@.take(DOCUMENT_HEAD@.len() - 16), DEVICE_HEAD@.skip(10));
    let it = "<URLBase>http://"@ + base + "/"@ + "</URLBase>"@;
    assert(front + DEVICE_HEAD@ =~= a + it + b);
    text::lemma_between(a, it, b);
    let c = DEVICE_HEAD@.take(DEVICE_HEAD@.len() - 14);
    text::lemma_tagged(
        front,
        c,
        "<friendlyName>"@,
        n,
        "</friendlyName>"@,
        DEVICE_MAKER@.skip(15),
        DEVICE_HEAD@,
        DEVICE_MAKER@,
    );
    let upto = front + DEVICE_HEAD@ + n;
    let d = DEVICE_MAKER@.take(DEVICE_MAKER@.len() - 10);
    text::lemma_tagged(
        upto,
        d,
        "<UDN>uuid:"@,
        u,
        "</UDN>"@,
        ICON_LIST@.skip(6),
        DEVICE_MAKER@,
        ICON_LIST@,
    );
    assert(text::contains(upto + DEVICE_MAKER@ + u + ICON_LIST@, "<UDN>uuid:"@ + u + "</UDN>"@));
    assert(text::contains(upto + DEVICE_MAKER@, "<friendlyName>"@ + n + "</friendlyName>"@));
    assert(text::contains(front + DEVICE_HEAD@, it));
}

/// The head of the document ends with the tag of the address, and that of the
/// device ends it and begins with the tag of the name.
proof fn lemma_head_ends()
    ensures
        DOCUMENT_HEAD@.len() > 16,
        DOCUMENT_HEAD@ == DOCUMENT_HEAD@.take(DOCUMENT_HEAD@.len() - 16) + "<URLBase>http://"@,
        DEVICE_HEAD@.len() > 24,
        DEVICE_HEAD@ == "</URLBase>"@ + DEVICE_HEAD@.skip(10),
        DEVICE_HEAD@ == DEVICE_HEAD@.take(DEVICE_HEAD@.len() - 14) + "<friendlyName>"@,
{
    reveal_strlit(
        "<?xml version=\"1.0\" encoding=\"utf-8\"?>\n\
<root xmlns=\"urn:schemas-upnp-org:device-1-0\" \
xmlns:dlna=\"urn:schemas-dlna-org:device-1-0\">\n\
<specVersion><major>1</major><minor>0</minor></specVersion>\n<URLBase>http://",
    );
    reveal_strlit(
        "</URLBase>\n<device>\n\
<deviceType>urn:schemas-upnp-org:device:MediaServer:1</deviceType>\n\
<dlna:X_DLNADOC>DMS-1.50</dlna:X_DLNADOC>\n<friendlyName>",
    );
    reveal_strlit("<URLBase>http://");
    reveal_strlit("</URLBase>");
    reveal_strlit("<friendlyName>");
    assert(DOCUMENT_HEAD@ =~= DOCUMENT_HEAD@.take(DOCUMENT_HEAD@.len() - 16) + "<URLBase>http://"@);
    assert(DEVICE_HEAD@ =~= "</URLBase>"@ + DEVICE_HEAD@.skip(10));
    assert(DEVICE_HEAD@ =~= DEVICE_HEAD@.take(DEVICE_HEAD@.len() - 14) + "<friendlyName>"@);
}

/// What stands behind the name ends its tag and begins that of the id.
proof fn lemma_maker_begins()
    ensures
        DEVICE_MAKER@.len() > 25,
        DEVICE_MAKER@ == "</friendlyName>"@ + DEVICE_MAKER@.skip(15),
        DEVICE_MAKER@ == DEVICE_MAKER@.take(DEVICE_MAKER@.len() - 10) + "<UDN>uuid:"@,
{
    reveal_strlit(
        "</friendlyName>\n\
<manufacturer>Spritz</manufacturer>\n\
<manufacturerURL>https://github.com/dfallman/spritz</manufacturerURL>\n\
<modelDescription>Nano DLNA media server</modelDescription>\n\
<modelName>Spritz</modelName>\n\
<modelNumber>0.1.6</modelNumber>\n<UDN>uuid:",
    );
    reveal_strlit("</friendlyName>");
    reveal_strlit("<UDN>uuid:");
    assert(DEVICE_MAKER@ =~= "</friendlyName>"@ + DEVICE_MAKER@.skip(15));
    assert(DEVICE_MAKER@ =~= DEVICE_MAKER@.take(DEVICE_MAKER@.len() - 10) + "<UDN>uuid:"@);
}

/// What stands behind the id ends its tag.
proof fn lemma_icons_begin()
    ensures
        ICON_LIST@.len() > 6,
        ICON_LIST@ == "</UDN>"@ + ICON_LIST@.skip(6),
{
    reveal_strlit(
        "</UDN>\n\
<iconList><icon><mimetype>image/png</mimetype><width>48</width><height>48</height>\
<depth>32</depth><url>/upnp/icon.png</url></icon></iconList>\n<serviceList>\n",
    );
    reveal_strlit("</UDN>");
    assert(ICON_LIST@ =~= "</UDN>"@ + ICON_LIST@.skip(6));
}

} // verus!
