use sipx_transport::addr::{IpAddress, SocketAddress};
use sipx_transport::stun::{
    binding_request, is_stun, new_transaction_id, parse_reply, Reply, TransactionId, HEADER_LEN,
    MAGIC_COOKIE,
};

/// Decode the hex listings RFC 5769 prints, so the test input is the RFC's bytes rather than
/// something transcribed by hand into a different shape.
fn hex(text: &str) -> Vec<u8> {
    text.split_whitespace()
        .map(|byte| u8::from_str_radix(byte, 16).expect("a hex byte"))
        .collect()
}

/// RFC 5769 §2.1, the sample request. Its transaction ID is what §2.2's response answers.
const SAMPLE_REQUEST: &str = "
    00 01 00 58  21 12 a4 42  b7 e7 a7 01  bc 34 d6 86
    fa 87 df ae  80 22 00 10  53 54 55 4e  20 74 65 73
    74 20 63 6c  69 65 6e 74  00 24 00 04  6e 00 01 ff
    80 29 00 08  93 2f f9 b1  51 26 3b 36  00 06 00 09
    65 76 74 6a  3a 68 36 76  59 20 20 20  00 08 00 14
    9a ea a7 0c  bf d8 cb 56  78 1e f2 b5  b2 d3 f2 49
    c1 b5 71 a2  80 28 00 04  e5 7a 3b cf";

/// RFC 5769 §2.2, the sample IPv4 response. The RFC states the decoded address itself:
/// 192.0.2.1 port 32853.
const SAMPLE_RESPONSE: &str = "
    01 01 00 3c  21 12 a4 42  b7 e7 a7 01  bc 34 d6 86
    fa 87 df ae  80 22 00 0b  74 65 73 74  20 76 65 63
    74 6f 72 20  00 20 00 08  00 01 a1 47  e1 12 a6 43
    00 08 00 14  2b 91 f5 99  fd 9e 90 c3  8c 74 89 f9
    2a f9 ba 53  f0 6b e7 d7  80 28 00 04  c0 7d 4c 96";

const SAMPLE_ID: TransactionId = [
    0xb7, 0xe7, 0xa7, 0x01, 0xbc, 0x34, 0xd6, 0x86, 0xfa, 0x87, 0xdf, 0xae,
];

/// The address RFC 5769 §2.2 says its own vector decodes to. Not computed here — the point of
/// a published vector is that the expected value comes from the publisher.
#[test]
fn the_rfc_5769_ipv4_response_decodes_to_the_address_the_rfc_states() {
    let reply = parse_reply(&hex(SAMPLE_RESPONSE)).expect("a STUN reply");
    assert_eq!(
        reply,
        Reply::Bound {
            id: SAMPLE_ID,
            mapped: Some(SocketAddress::new(IpAddress::V4([192, 0, 2, 1]), 32853)),
        }
    );
}

/// The `SOFTWARE` attribute in that vector is 11 bytes, so its 32-bit padding has to be
/// skipped to reach `XOR-MAPPED-ADDRESS` at all. A decoder that ignores §15's padding rule
/// walks into the middle of the next attribute and finds nothing — which is why the vector is
/// worth using rather than a hand-built two-attribute message.
#[test]
fn an_attribute_whose_length_is_not_a_multiple_of_four_is_padded_past() {
    let bytes = hex(SAMPLE_RESPONSE);
    let software_length = u16::from_be_bytes([bytes[22], bytes[23]]);
    assert_eq!(software_length, 11, "the vector's SOFTWARE attribute");
    assert!(
        matches!(
            parse_reply(&bytes),
            Some(Reply::Bound {
                mapped: Some(_),
                ..
            })
        ),
        "the padded attribute was not skipped correctly"
    );
}

#[test]
fn the_rfc_5769_request_is_recognised_as_stun_but_not_as_a_reply() {
    let bytes = hex(SAMPLE_REQUEST);
    assert!(is_stun(&bytes));
    assert!(
        parse_reply(&bytes).is_none(),
        "sipx is a STUN client; answering a Binding Request would make it a server by accident"
    );
}

#[test]
fn our_binding_request_has_the_header_the_rfc_specifies() {
    let request = binding_request(&SAMPLE_ID);
    assert_eq!(request.len(), HEADER_LEN, "no attributes");
    assert_eq!(&request[0..2], &[0x00, 0x01], "Binding Request");
    assert_eq!(&request[2..4], &[0x00, 0x00], "length counts attributes");
    assert_eq!(&request[4..8], &MAGIC_COOKIE.to_be_bytes());
    assert_eq!(&request[8..20], &SAMPLE_ID);
    assert!(is_stun(&request), "our own request must pass §7.3's test");
}

#[test]
fn a_sip_message_is_not_mistaken_for_stun() {
    // The demultiplexing has to be safe in the direction that matters: a SIP request read as
    // STUN would be dropped, and the far end would see a request vanish.
    for message in [
        &b"INVITE sip:bob@example.com SIP/2.0\r\n\r\n"[..],
        &b"SIP/2.0 200 OK\r\n\r\n"[..],
        &b"REGISTER sip:example.com SIP/2.0\r\n\r\n"[..],
        &b"\r\n\r\n"[..],
        &b""[..],
    ] {
        assert!(
            !is_stun(message),
            "{:?} was taken for STUN",
            String::from_utf8_lossy(message)
        );
    }
}

#[test]
fn a_truncated_or_cookieless_datagram_is_not_stun() {
    let mut short = binding_request(&SAMPLE_ID);
    short.truncate(HEADER_LEN - 1);
    assert!(!is_stun(&short), "a header must be complete to be one");

    let mut wrong_cookie = binding_request(&SAMPLE_ID);
    wrong_cookie[4] = 0x00;
    assert!(!is_stun(&wrong_cookie), "§7.3's cookie check");
}

#[test]
fn a_binding_error_response_reads_as_a_failed_flow() {
    // RFC 5626 §4.4.2: "If a STUN Binding Error Response is received ... the UA considers the flow
    // failed."
    let mut bytes = binding_request(&SAMPLE_ID);
    bytes[0] = 0x01;
    bytes[1] = 0x11;
    assert_eq!(
        parse_reply(&bytes),
        Some(Reply::Failed { id: SAMPLE_ID }),
        "an error response is a failed flow, not an absent answer"
    );
}

#[test]
fn a_response_with_no_mapped_address_still_answers_the_transaction() {
    // A server is not obliged to be useful. What matters is that the flow is proven alive;
    // the mapped address is extra, and treating its absence as a parse failure would declare
    // a working flow dead.
    let mut bytes = binding_request(&SAMPLE_ID);
    bytes[0] = 0x01;
    bytes[1] = 0x01;
    assert_eq!(
        parse_reply(&bytes),
        Some(Reply::Bound {
            id: SAMPLE_ID,
            mapped: None
        })
    );
}

#[test]
fn an_ipv6_mapped_address_is_unxored_with_the_transaction_id() {
    // §15.2 extends the XOR key with the transaction ID for IPv6. Built by XORing a known
    // address *with the rule the RFC states*, then asserting it decodes back — the closest
    // thing to a vector available, since RFC 5769 §2.3's IPv6 response is for a different
    // transaction ID than §2.1's.
    let addr: [u8; 16] = [0x20, 0x01, 0x0d, 0xb8, 0, 0, 0, 0, 0, 0, 0, 0, 0, 0, 0, 1];
    let port: u16 = 32853;
    let mut key = [0u8; 16];
    key[..4].copy_from_slice(&MAGIC_COOKIE.to_be_bytes());
    key[4..].copy_from_slice(&SAMPLE_ID);
    let xored: Vec<u8> = addr
        .iter()
        .zip(key.iter())
        .map(|(a, k)| a ^ k)
        .collect();

    let mut bytes = binding_request(&SAMPLE_ID);
    bytes[0] = 0x01;
    bytes[1] = 0x01;
    bytes[2] = 0x00;
    bytes[3] = 24; // one attribute: 4 header + 20 value
    bytes.extend_from_slice(&0x0020u16.to_be_bytes());
    bytes.extend_from_slice(&20u16.to_be_bytes());
    bytes.push(0);
    bytes.push(0x02);
    bytes.extend_from_slice(
        &(port ^ u16::try_from(MAGIC_COOKIE >> 16).expect("fits")).to_be_bytes(),
    );
    bytes.extend_from_slice(&xored);

    assert_eq!(
        parse_reply(&bytes),
        Some(Reply::Bound {
            id: SAMPLE_ID,
            mapped: Some(SocketAddress::new(IpAddress::V6(addr), port)),
        })
    );
}

#[test]
fn two_transaction_ids_differ() {
    assert_ne!(new_transaction_id(), new_transaction_id());
}

#[test]
fn a_reply_names_the_transaction_it_answers() {
    let reply = Reply::Failed { id: [7u8; 12] };
    assert_eq!(reply.id(), [7u8; 12]);
}
