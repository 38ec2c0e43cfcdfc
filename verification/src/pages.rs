//! The fixed pages of the server and what it says of itself on the network.

use crate::seqs;
use crate::text;
use crate::text::push_decimal;
use vstd::prelude::*;
use vstd::string::*;
use vstd::utf8;

verus! {

/// The answer to `GetSortCapabilities`.
pub const XML_CAPS: &'static str = r#"<?xml version="1.0" encoding="utf-8"?><s:Envelope xmlns:s="http://schemas.xmlsoap.org/soap/envelope/" s:encodingStyle="http://schemas.xmlsoap.org/soap/encoding/"><s:Body><u:GetSortCapabilitiesResponse xmlns:u="urn:schemas-upnp-org:service:ContentDirectory:1"><SortCaps>dc:title,dc:date,upnp:class,upnp:album,upnp:episodeNumber,upnp:originalTrackNumber</SortCaps></u:GetSortCapabilitiesResponse></s:Body></s:Envelope>"#;

/// The description of the content directory service.
pub const CONTENT_DIR_XML: &'static str = r#"<?xml version="1.0"?><scpd xmlns="urn:schemas-upnp-org:service-1-0"><specVersion><major>1</major><minor>0</minor></specVersion><actionList><action><name>GetSearchCapabilities</name><argumentList><argument><name>SearchCaps</name><direction>out</direction><relatedStateVariable>SearchCapabilities</relatedStateVariable></argument></argumentList></action><action><name>GetSortCapabilities</name><argumentList><argument><name>SortCaps</name><direction>out</direction><relatedStateVariable>SortCapabilities</relatedStateVariable></argument></argumentList></action><action><name>GetSystemUpdateID</name><argumentList><argument><name>Id</name><direction>out</direction><relatedStateVariable>SystemUpdateID</relatedStateVariable></argument></argumentList></action><action><name>Browse</name><argumentList><argument><name>ObjectID</name><direction>in</direction><relatedStateVariable>A_ARG_TYPE_ObjectID</relatedStateVariable></argument><argument><name>BrowseFlag</name><direction>in</direction><relatedStateVariable>A_ARG_TYPE_BrowseFlag</relatedStateVariable></argument><argument><name>Filter</name><direction>in</direction><relatedStateVariable>A_ARG_TYPE_Filter</relatedStateVariable></argument><argument><name>StartingIndex</name><direction>in</direction><relatedStateVariable>A_ARG_TYPE_Index</relatedStateVariable></argument><argument><name>RequestedCount</name><direction>in</direction><relatedStateVariable>A_ARG_TYPE_Count</relatedStateVariable></argument><argument><name>SortCriteria</name><direction>in</direction><relatedStateVariable>A_ARG_TYPE_SortCriteria</relatedStateVariable></argument><argument><name>Result</name><direction>out</direction><relatedStateVariable>A_ARG_TYPE_Result</relatedStateVariable></argument><argument><name>NumberReturned</name><direction>out</direction><relatedStateVariable>A_ARG_TYPE_Count</relatedStateVariable></argument><argument><name>TotalMatches</name><direction>out</direction><relatedStateVariable>A_ARG_TYPE_Count</relatedStateVariable></argument><argument><name>UpdateID</name><direction>out</direction><relatedStateVariable>A_ARG_TYPE_UpdateID</relatedStateVariable></argument></argumentList></action><action><name>Search</name><argumentList><argument><name>ContainerID</name><direction>in</direction><relatedStateVariable>A_ARG_TYPE_ObjectID</relatedStateVariable></argument><argument><name>SearchCriteria</name><direction>in</direction><relatedStateVariable>A_ARG_TYPE_SearchCriteria</relatedStateVariable></argument><argument><name>Filter</name><direction>in</direction><relatedStateVariable>A_ARG_TYPE_Filter</relatedStateVariable></argument><argument><name>StartingIndex</name><direction>in</direction><relatedStateVariable>A_ARG_TYPE_Index</relatedStateVariable></argument><argument><name>RequestedCount</name><direction>in</direction><relatedStateVariable>A_ARG_TYPE_Count</relatedStateVariable></argument><argument><name>SortCriteria</name><direction>in</direction><relatedStateVariable>A_ARG_TYPE_SortCriteria</relatedStateVariable></argument><argument><name>Result</name><direction>out</direction><relatedStateVariable>A_ARG_TYPE_Result</relatedStateVariable></argument><argument><name>NumberReturned</name><direction>out</direction><relatedStateVariable>A_ARG_TYPE_Count</relatedStateVariable></argument><argument><name>TotalMatches</name><direction>out</direction><relatedStateVariable>A_ARG_TYPE_Count</relatedStateVariable></argument><argument><name>UpdateID</name><direction>out</direction><relatedStateVariable>A_ARG_TYPE_UpdateID</relatedStateVariable></argument></argumentList></action><action><name>UpdateObject</name><argumentList><argument><name>ObjectID</name><direction>in</direction><relatedStateVariable>A_ARG_TYPE_ObjectID</relatedStateVariable></argument><argument><name>CurrentTagValue</name><direction>in</direction><relatedStateVariable>A_ARG_TYPE_TagValueList</relatedStateVariable></argument><argument><name>NewTagValue</name><direction>in</direction><relatedStateVariable>A_ARG_TYPE_TagValueList</relatedStateVariable></argument></argumentList></action></actionList><serviceStateTable><stateVariable sendEvents="yes"><name>TransferIDs</name><dataType>string</dataType></stateVariable><stateVariable sendEvents="no"><name>A_ARG_TYPE_ObjectID</name><dataType>string</dataType></stateVariable><stateVariable sendEvents="no"><name>A_ARG_TYPE_Result</name><dataType>string</dataType></stateVariable><stateVariable sendEvents="no"><name>A_ARG_TYPE_SearchCriteria</name><dataType>string</dataType></stateVariable><stateVariable sendEvents="no"><name>A_ARG_TYPE_BrowseFlag</name><dataType>string</dataType><allowedValueList><allowedValue>BrowseMetadata</allowedValue><allowedValue>BrowseDirectChildren</allowedValue></allowedValueList></stateVariable><stateVariable sendEvents="no"><name>A_ARG_TYPE_Filter</name><dataType>string</dataType></stateVariable><stateVariable sendEvents="no"><name>A_ARG_TYPE_SortCriteria</name><dataType>string</dataType></stateVariable><stateVariable sendEvents="no"><name>A_ARG_TYPE_Index</name><dataType>ui4</dataType></stateVariable><stateVariable sendEvents="no"><name>A_ARG_TYPE_Count</name><dataType>ui4</dataType></stateVariable><stateVariable sendEvents="no"><name>A_ARG_TYPE_UpdateID</name><dataType>ui4</dataType></stateVariable><stateVariable sendEvents="no"><name>A_ARG_TYPE_TagValueList</name><dataType>string</dataType></stateVariable><stateVariable sendEvents="no"><name>SearchCapabilities</name><dataType>string</dataType></stateVariable><stateVariable sendEvents="no"><name>SortCapabilities</name><dataType>string</dataType></stateVariable><stateVariable sendEvents="yes"><name>SystemUpdateID</name><dataType>ui4</dataType></stateVariable></serviceStateTable></scpd>"#;

/// The description of the registrar service.
pub const X_MS_MEDIA_RECEIVER_REGISTRAR_XML: &'static str = r#"<?xml version="1.0"?><scpd xmlns="urn:schemas-upnp-org:service-1-0"><specVersion><major>1</major><minor>0</minor></specVersion><actionList><action><name>IsAuthorized</name><argumentList><argument><name>DeviceID</name><direction>in</direction><relatedStateVariable>A_ARG_TYPE_DeviceID</relatedStateVariable></argument><argument><name>Result</name><direction>out</direction><relatedStateVariable>A_ARG_TYPE_Result</relatedStateVariable></argument></argumentList></action><action><name>IsValidated</name><argumentList><argument><name>DeviceID</name><direction>in</direction><relatedStateVariable>A_ARG_TYPE_DeviceID</relatedStateVariable></argument><argument><name>Result</name><direction>out</direction><relatedStateVariable>A_ARG_TYPE_Result</relatedStateVariable></argument></argumentList></action><action><name>RegisterDevice</name><argumentList><argument><name>RegistrationReqMsg</name><direction>in</direction><relatedStateVariable>A_ARG_TYPE_RegistrationReqMsg</relatedStateVariable></argument><argument><name>RegistrationRespMsg</name><direction>out</direction><relatedStateVariable>A_ARG_TYPE_RegistrationRespMsg</relatedStateVariable></argument></argumentList></action></actionList><serviceStateTable><stateVariable sendEvents="no"><name>A_ARG_TYPE_DeviceID</name><dataType>string</dataType></stateVariable><stateVariable sendEvents="no"><name>A_ARG_TYPE_RegistrationReqMsg</name><dataType>bin.base64</dataType></stateVariable><stateVariable sendEvents="no"><name>A_ARG_TYPE_RegistrationRespMsg</name><dataType>bin.base64</dataType></stateVariable><stateVariable sendEvents="no"><name>A_ARG_TYPE_Result</name><dataType>int</dataType></stateVariable><stateVariable sendEvents="yes"><name>AuthorizationDeniedUpdateID</name><dataType>ui4</dataType></stateVariable><stateVariable sendEvents="yes"><name>AuthorizationGrantedUpdateID</name><dataType>ui4</dataType></stateVariable><stateVariable sendEvents="yes"><name>ValidationRevokedUpdateID</name><dataType>ui4</dataType></stateVariable><stateVariable sendEvents="yes"><name>ValidationSucceededUpdateID</name><dataType>ui4</dataType></stateVariable></serviceStateTable></scpd>"#;

/// The description of the connection manager service.
pub const CONNECTION_MGR_XML: &'static str = r#"<?xml version="1.0"?><scpd xmlns="urn:schemas-upnp-org:service-1-0"><specVersion><major>1</major><minor>0</minor></specVersion><actionList><action><name>GetProtocolInfo</name><argumentList><argument><name>Source</name><direction>out</direction><relatedStateVariable>SourceProtocolInfo</relatedStateVariable></argument><argument><name>Sink</name><direction>out</direction><relatedStateVariable>SinkProtocolInfo</relatedStateVariable></argument></argumentList></action><action><name>GetCurrentConnectionIDs</name><argumentList><argument><name>ConnectionIDs</name><direction>out</direction><relatedStateVariable>CurrentConnectionIDs</relatedStateVariable></argument></argumentList></action><action><name>GetCurrentConnectionInfo</name><argumentList><argument><name>ConnectionID</name><direction>in</direction><relatedStateVariable>A_ARG_TYPE_ConnectionID</relatedStateVariable></argument><argument><name>RcsID</name><direction>out</direction><relatedStateVariable>A_ARG_TYPE_RcsID</relatedStateVariable></argument><argument><name>AVTransportID</name><direction>out</direction><relatedStateVariable>A_ARG_TYPE_AVTransportID</relatedStateVariable></argument><argument><name>ProtocolInfo</name><direction>out</direction><relatedStateVariable>A_ARG_TYPE_ProtocolInfo</relatedStateVariable></argument><argument><name>PeerConnectionManager</name><direction>out</direction><relatedStateVariable>A_ARG_TYPE_ConnectionManager</relatedStateVariable></argument><argument><name>PeerConnectionID</name><direction>out</direction><relatedStateVariable>A_ARG_TYPE_ConnectionID</relatedStateVariable></argument><argument><name>Direction</name><direction>out</direction><relatedStateVariable>A_ARG_TYPE_Direction</relatedStateVariable></argument><argument><name>Status</name><direction>out</direction><relatedStateVariable>A_ARG_TYPE_ConnectionStatus</relatedStateVariable></argument></argumentList></action></actionList><serviceStateTable><stateVariable sendEvents="yes"><name>SourceProtocolInfo</name><dataType>string</dataType></stateVariable><stateVariable sendEvents="yes"><name>SinkProtocolInfo</name><dataType>string</dataType></stateVariable><stateVariable sendEvents="yes"><name>CurrentConnectionIDs</name><dataType>string</dataType></stateVariable><stateVariable sendEvents="no"><name>A_ARG_TYPE_ConnectionStatus</name><dataType>string</dataType><allowedValueList><allowedValue>OK</allowedValue><allowedValue>ContentFormatMismatch</allowedValue><allowedValue>InsufficientBandwidth</allowedValue><allowedValue>UnreliableChannel</allowedValue><allowedValue>Unknown</allowedValue></allowedValueList></stateVariable><stateVariable sendEvents="no"><name>A_ARG_TYPE_ConnectionManager</name><dataType>string</dataType></stateVariable><stateVariable sendEvents="no"><name>A_ARG_TYPE_Direction</name><dataType>string</dataType><allowedValueList><allowedValue>Input</allowedValue><allowedValue>Output</allowedValue></allowedValueList></stateVariable><stateVariable sendEvents="no"><name>A_ARG_TYPE_ProtocolInfo</name><dataType>string</dataType></stateVariable><stateVariable sendEvents="no"><name>A_ARG_TYPE_ConnectionID</name><dataType>i4</dataType></stateVariable><stateVariable sendEvents="no"><name>A_ARG_TYPE_AVTransportID</name><dataType>i4</dataType></stateVariable><stateVariable sendEvents="no"><name>A_ARG_TYPE_RcsID</name><dataType>i4</dataType></stateVariable></serviceStateTable></scpd>"#;

/// The description of the device.
pub const ROOT_DESC_XML: &'static str = r#"<?xml version="1.0"?><root xmlns="urn:schemas-upnp-org:device-1-0"><specVersion><major>1</major><minor>0</minor></specVersion><device><deviceType>urn:schemas-upnp-org:device:MediaServer:1</deviceType><friendlyName>RustyDLNA7</friendlyName><manufacturer>RustyDLNA7</manufacturer><manufacturerURL>http://www.netgear.com/</manufacturerURL><modelDescription>RustyDLNA on Linux</modelDescription><modelName>Windows Media Connect compatible (MiniDLNA)</modelName><modelNumber>1.3.0</modelNumber><modelURL>http://www.netgear.com</modelURL><serialNumber>00000000</serialNumber><UDN>uuid:4d696e6e-444c-164e-9d41-b827eb96c6c2</UDN><dlna:X_DLNADOC xmlns:dlna="urn:schemas-dlna-org:device-1-0">DMS-1.50</dlna:X_DLNADOC><presentationURL>/</presentationURL><iconList><icon><mimetype>image/png</mimetype><width>48</width><height>48</height><depth>24</depth><url>/icons/sm.png</url></icon><icon><mimetype>image/png</mimetype><width>120</width><height>120</height><depth>24</depth><url>/icons/lrg.png</url></icon><icon><mimetype>image/jpeg</mimetype><width>48</width><height>48</height><depth>24</depth><url>/icons/sm.jpg</url></icon><icon><mimetype>image/jpeg</mimetype><width>120</width><height>120</height><depth>24</depth><url>/icons/lrg.jpg</url></icon></iconList><serviceList><service><serviceType>urn:schemas-upnp-org:service:ContentDirectory:1</serviceType><serviceId>urn:upnp-org:serviceId:ContentDirectory</serviceId><controlURL>/ctl/ContentDir</controlURL><eventSubURL>/evt/ContentDir</eventSubURL><SCPDURL>/ContentDir.xml</SCPDURL></service><service><serviceType>urn:schemas-upnp-org:service:ConnectionManager:1</serviceType><serviceId>urn:upnp-org:serviceId:ConnectionManager</serviceId><controlURL>/ctl/ConnectionMgr</controlURL><eventSubURL>/evt/ConnectionMgr</eventSubURL><SCPDURL>/ConnectionMgr.xml</SCPDURL></service><service><serviceType>urn:microsoft.com:service:X_MS_MediaReceiverRegistrar:1</serviceType><serviceId>urn:microsoft.com:serviceId:X_MS_MediaReceiverRegistrar</serviceId><controlURL>/ctl/X_MS_MediaReceiverRegistrar</controlURL><eventSubURL>/evt/X_MS_MediaReceiverRegistrar</eventSubURL><SCPDURL>/X_MS_MediaReceiverRegistrar.xml</SCPDURL></service></serviceList></device></root>"#;

/// The HTTP header of a page of `length` bytes.
pub open spec fn page_header(length: nat) -> Seq<char> {
    "HTTP/1.1 200 OK\r\n"@ + "Content-Length: "@ + text::decimal_text(length) + "\r\n"@
        + "Content-Type: text/xml\r\n\r\n"@
}

/// A page with its HTTP header. The length counts bytes.
pub open spec fn baked(body: Seq<char>) -> Seq<char> {
    page_header(utf8::encode_utf8(body).len()) + body
}

/// As many bytes follow the header of a page as it announces.
pub proof fn law_page_length_is_announced(body: Seq<char>)
    ensures
        ({
            let length = utf8::encode_utf8(body).len();
            utf8::encode_utf8(baked(body)) == utf8::encode_utf8(page_header(length))
                + utf8::encode_utf8(body)
        }),
{
    text::lemma_encode_concat(page_header(utf8::encode_utf8(body).len()), body);
}

/// A page is sent as a success, as XML, with the number of its bytes before it,
/// and ends with its own text.
pub proof fn law_page_is_sent_whole(body: Seq<char>)
    ensures
        seqs::starts_with(baked(body), "HTTP/1.1 200 OK\r\n"@),
        seqs::contains_seq(
            baked(body),
            "Content-Length: "@ + text::decimal_text(utf8::encode_utf8(body).len()) + "\r\n"@,
        ),
        seqs::contains_seq(baked(body), "Content-Type: text/xml\r\n\r\n"@ + body),
        seqs::ends_with(baked(body), body),
        baked(body).len() == "HTTP/1.1 200 OK\r\n"@.len() + ("Content-Length: "@
            + text::decimal_text(utf8::encode_utf8(body).len()) + "\r\n"@).len()
            + "Content-Type: text/xml\r\n\r\n"@.len() + body.len(),
{
    let none: Seq<char> = Seq::empty();
    let whole = baked(body);
    let status = "HTTP/1.1 200 OK\r\n"@;
    let length = "Content-Length: "@ + text::decimal_text(utf8::encode_utf8(body).len())
        + "\r\n"@;
    let kind = "Content-Type: text/xml\r\n\r\n"@;
    assert(whole =~= none + status + (length + kind + body));
    seqs::lemma_occurs_between(whole, none, status, length + kind + body);
    assert(whole =~= status + length + (kind + body));
    seqs::lemma_occurs_between(whole, status, length, kind + body);
    assert(whole =~= (status + length) + (kind + body) + none);
    seqs::lemma_occurs_between(whole, status + length, kind + body, none);
    assert(whole =~= (status + length + kind) + body + none);
    seqs::lemma_occurs_between(whole, status + length + kind, body, none);
}

/// Puts the HTTP header in front of a page.
pub fn bake_static(body: &str) -> (r: String)
    ensures
        r@ == baked(body@),
{
    let mut out = "HTTP/1.1 200 OK\r\n".to_owned();
    out.push_str("Content-Length: ");
    push_decimal(&mut out, body.as_bytes().len() as u64);
    out.push_str("\r\n");
    out.push_str("Content-Type: text/xml\r\n\r\n");
    out.push_str(body);
    out
}

/// The answer to a search for media servers.
pub open spec fn ssdp_text(ip: Seq<char>) -> Seq<char> {
    "HTTP/1.1 200 OK\r\n"@ + "CACHE-CONTROL: max-age=1800\r\nEXT:\r\n"@
        + "LOCATION: http://"@ + ip
        + ":8200/rootDesc.xml\r\n"@
        + "SERVER: DLNA/1.0 DLNADOC/1.50 UPnP/1.0 RustyDLNA7/1.3.0\r\n"@
        + "ST: urn:schemas-upnp-org:device:MediaServer:1\r\n"@
        + "USN: uuid:4d696e6e-444c-164e-9d41-b827eb96c6c2::urn:schemas-upnp-org:device:MediaServer:1\r\n\r\n"@
}

/// The answer to a search for media servers: it points to the description of
/// the device.
pub fn ssdp_response(ip: &str) -> (r: String)
    ensures
        r@ == ssdp_text(ip@),
{
    let mut out = "HTTP/1.1 200 OK\r\n".to_owned();
    out.push_str("CACHE-CONTROL: max-age=1800\r\nEXT:\r\n");
    out.push_str("LOCATION: http://");
    out.push_str(ip);
    out.push_str(":8200/rootDesc.xml\r\n");
    out.push_str("SERVER: DLNA/1.0 DLNADOC/1.50 UPnP/1.0 RustyDLNA7/1.3.0\r\n");
    out.push_str("ST: urn:schemas-upnp-org:device:MediaServer:1\r\n");
    out.push_str(
        "USN: uuid:4d696e6e-444c-164e-9d41-b827eb96c6c2::urn:schemas-upnp-org:device:MediaServer:1\r\n\r\n",
    );
    out
}

/// The answer to a search is a success that names the kind of device and
/// points to the description of the device at the very address of the server.
pub proof fn law_search_reply_locates_the_server(ip: Seq<char>)
    ensures
        seqs::starts_with(ssdp_text(ip), "HTTP/1.1 200 OK\r\n"@),
        seqs::contains_seq(
            ssdp_text(ip),
            "LOCATION: http://"@ + ip + ":8200/rootDesc.xml\r\n"@,
        ),
        seqs::contains_seq(
            ssdp_text(ip),
            "ST: urn:schemas-upnp-org:device:MediaServer:1\r\n"@,
        ),
        seqs::ends_with(
            ssdp_text(ip),
            "USN: uuid:4d696e6e-444c-164e-9d41-b827eb96c6c2::urn:schemas-upnp-org:device:MediaServer:1\r\n\r\n"@,
        ),
{
    let none: Seq<char> = Seq::empty();
    let whole = ssdp_text(ip);
    let status = "HTTP/1.1 200 OK\r\n"@;
    let cache = "CACHE-CONTROL: max-age=1800\r\nEXT:\r\n"@;
    let location = "LOCATION: http://"@ + ip + ":8200/rootDesc.xml\r\n"@;
    let server = "SERVER: DLNA/1.0 DLNADOC/1.50 UPnP/1.0 RustyDLNA7/1.3.0\r\n"@;
    let st = "ST: urn:schemas-upnp-org:device:MediaServer:1\r\n"@;
    let usn =
        "USN: uuid:4d696e6e-444c-164e-9d41-b827eb96c6c2::urn:schemas-upnp-org:device:MediaServer:1\r\n\r\n"@;
    assert(whole =~= none + status + (cache + location + server + st + usn));
    seqs::lemma_occurs_between(whole, none, status, cache + location + server + st + usn);
    assert(whole =~= (status + cache) + location + (server + st + usn));
    seqs::lemma_occurs_between(whole, status + cache, location, server + st + usn);
    assert(whole =~= (status + cache + location + server) + st + usn);
    seqs::lemma_occurs_between(whole, status + cache + location + server, st, usn);
    assert(whole =~= (status + cache + location + server + st) + usn + none);
    seqs::lemma_occurs_between(whole, status + cache + location + server + st, usn, none);
}

/// Two servers at two addresses never answer a search alike.
pub proof fn law_search_replies_differ(a: Seq<char>, b: Seq<char>)
    requires
        ssdp_text(a) == ssdp_text(b),
    ensures
        a == b,
{
    let n = ("HTTP/1.1 200 OK\r\n"@ + "CACHE-CONTROL: max-age=1800\r\nEXT:\r\n"@
        + "LOCATION: http://"@).len() as int;
    assert(ssdp_text(a).len() - a.len() == ssdp_text(b).len() - b.len());
    assert(ssdp_text(a).subrange(n, n + a.len()) =~= a);
    assert(ssdp_text(b).subrange(n, n + b.len()) =~= b);
}

/// The pages that have a fixed path.
#[derive(Clone, Copy, Debug, PartialEq, Eq, Structural)]
pub enum StaticPage {
    RootDesc,
    ContentDir,
    ConnectionMgr,
    Registrar,
}

/// The body of a fixed page.
pub open spec fn page_body(page: StaticPage) -> Seq<char> {
    match page {
        StaticPage::RootDesc => ROOT_DESC_XML@,
        StaticPage::ContentDir => CONTENT_DIR_XML@,
        StaticPage::ConnectionMgr => CONNECTION_MGR_XML@,
        StaticPage::Registrar => X_MS_MEDIA_RECEIVER_REGISTRAR_XML@,
    }
}

/// Where the server is and what it serves, with its fixed replies ready to
/// send.
pub struct AppConfig {
    local_ip: String,
    dir_path: String,
    root_desc_xml: String,
    content_dir_xml: String,
    registrar_xml: String,
    conn_mgr_xml: String,
    sort_caps_response: String,
}

impl AppConfig {
    /// The replies are the pages with their headers.
    #[verifier::type_invariant]
    spec fn is_baked(&self) -> bool {
        &&& self.root_desc_xml@ == baked(ROOT_DESC_XML@)
        &&& self.content_dir_xml@ == baked(CONTENT_DIR_XML@)
        &&& self.registrar_xml@ == baked(X_MS_MEDIA_RECEIVER_REGISTRAR_XML@)
        &&& self.conn_mgr_xml@ == baked(CONNECTION_MGR_XML@)
        &&& self.sort_caps_response@ == baked(XML_CAPS@)
    }

    /// The address of the server.
    pub closed spec fn ip(&self) -> Seq<char> {
        self.local_ip@
    }

    /// The directory that the server serves.
    pub closed spec fn dir(&self) -> Seq<char> {
        self.dir_path@
    }

    /// The configuration of a server at `local_ip` that serves `dir_path`.
    pub fn new(local_ip: &str, dir_path: &str) -> (r: AppConfig)
        ensures
            r.ip() == local_ip@,
            r.dir() == dir_path@,
    {
        AppConfig {
            local_ip: local_ip.to_owned(),
            dir_path: dir_path.to_owned(),
            root_desc_xml: bake_static(ROOT_DESC_XML),
            content_dir_xml: bake_static(CONTENT_DIR_XML),
            registrar_xml: bake_static(X_MS_MEDIA_RECEIVER_REGISTRAR_XML),
            conn_mgr_xml: bake_static(CONNECTION_MGR_XML),
            sort_caps_response: bake_static(XML_CAPS),
        }
    }

    /// The address of the server.
    pub fn local_ip(&self) -> (r: &str)
        ensures
            r@ == self.ip(),
    {
        self.local_ip.as_str()
    }

    /// The directory that the server serves.
    pub fn dir_path(&self) -> (r: &str)
        ensures
            r@ == self.dir(),
    {
        self.dir_path.as_str()
    }

    /// The reply with a fixed page.
    pub fn page(&self, page: StaticPage) -> (r: &str)
        ensures
            r@ == baked(page_body(page)),
    {
        proof {
            use_type_invariant(self);
        }
        match page {
            StaticPage::RootDesc => self.root_desc_xml.as_str(),
            StaticPage::ContentDir => self.content_dir_xml.as_str(),
            StaticPage::ConnectionMgr => self.conn_mgr_xml.as_str(),
            StaticPage::Registrar => self.registrar_xml.as_str(),
        }
    }

    /// The reply with the sort capabilities.
    pub fn sort_caps(&self) -> (r: &str)
        ensures
            r@ == baked(XML_CAPS@),
    {
        proof {
            use_type_invariant(self);
        }
        self.sort_caps_response.as_str()
    }
}

} // verus!
