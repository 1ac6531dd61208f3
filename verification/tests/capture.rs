use sipx_transport::addr::{IpAddress, SocketAddress};
use sipx_transport::capture::{
    block, comment, ones_complement, packet_block, padded, section_header, synthesise,
    CaptureConfig, Direction, Record, Recorder,
};
use sipx_transport::redact::redact;
use sipx_transport::target::TransportKind;

fn text(bytes: &[u8]) -> String {
    String::from_utf8_lossy(bytes).into_owned()
}

/// A digest response is a credential; the challenge around it is what makes a failure readable.
#[test]
fn a_digest_response_is_removed_and_the_challenge_is_kept() {
    let message = b"REGISTER sip:example.net SIP/2.0\r\n\
         Authorization: Digest username=\"alice\", realm=\"example.net\", \
         nonce=\"abc123\", uri=\"sip:example.net\", response=\"deadbeefcafe0001\", qop=auth\r\n\
         Content-Length: 0\r\n\r\n";
    let redacted = redact(message).expect("a digest response must be redacted");
    let out = text(&redacted);

    assert!(
        !out.contains("deadbeefcafe0001"),
        "the digest response is still in the capture: {out}"
    );
    assert!(out.contains("response=\"REDACTED\""), "{out}");
    // Kept, and deliberately: a digest failure is unreadable without them, and a nonce with no
    // response beside it is not a credential.
    assert!(out.contains("realm=\"example.net\""), "{out}");
    assert!(out.contains("nonce=\"abc123\""), "{out}");
    assert!(out.contains("username=\"alice\""), "{out}");
    assert!(out.contains("qop=auth"), "{out}");
    assert!(
        out.starts_with("REGISTER sip:example.net SIP/2.0\r\n"),
        "{out}"
    );
}

/// An SRTP key leaves, and the body keeps the length `Content-Length` claims.
#[test]
fn an_srtp_key_is_removed_without_changing_the_body_length() {
    let message = b"INVITE sip:bob@example.net SIP/2.0\r\n\
         Content-Type: application/sdp\r\n\
         Content-Length: 68\r\n\r\n\
         v=0\r\n\
         a=crypto:1 AES_CM_128_HMAC_SHA1_80 inline:d0RmdmcmVCspeEc3QGZiNWpVLFJhQX1cfHAwJSoj|2^20|1:32\r\n";
    let redacted = redact(message).expect("an SRTP key must be redacted");
    let out = text(&redacted);

    assert!(
        !out.contains("d0RmdmcmVCspeEc3QGZiNWpVLFJhQX1cfHAwJSoj"),
        "the SRTP master key is still in the capture: {out}"
    );
    assert!(
        out.contains("a=crypto:1 AES_CM_128_HMAC_SHA1_80 inline:"),
        "{out}"
    );
    // The tag and the crypto-suite are kept: RFC 4568 §5.1.2 makes them the thing an answer has to echo,
    // so a negotiation bug is invisible without them.
    assert!(out.contains("AES_CM_128_HMAC_SHA1_80"), "{out}");
    assert!(
        out.contains("|2^20|1:32"),
        "the lifetime and MKI are not secret: {out}"
    );
    assert_eq!(
        redacted.len(),
        message.len(),
        "body redaction must preserve length or Content-Length becomes a lie"
    );
}

#[test]
fn a_push_token_and_an_instance_urn_are_removed() {
    let message = b"REGISTER sip:example.net SIP/2.0\r\n\
         Contact: <sip:alice@192.0.2.4>;+sip.instance=\"<urn:uuid:00000000-0000-0000-0000-00000000042>\";\
         pn-provider=apns;pn-prid=SECRETTOKEN;pn-param=SECRETPARAM\r\n\
         Content-Length: 0\r\n\r\n";
    let out = text(&redact(message).expect("push credentials must be redacted"));

    assert!(!out.contains("SECRETTOKEN"), "{out}");
    assert!(!out.contains("SECRETPARAM"), "{out}");
    assert!(!out.contains("urn:uuid:00000000"), "{out}");
    // The provider is not a credential and says which push service a bug is about.
    assert!(out.contains("pn-provider=apns"), "{out}");
    assert!(out.contains("sip:alice@192.0.2.4"), "{out}");
}

/// What redaction deliberately keeps: an operator told the file is safe would be worse off than
/// one told it is not.
#[test]
fn redaction_keeps_what_makes_a_message_diagnosable() {
    let message = b"INVITE sip:bob@example.net SIP/2.0\r\n\
         Via: SIP/2.0/UDP 192.0.2.4:5060;branch=z9hG4bKtrace\r\n\
         From: \"Alice Example\" <sip:alice@example.net>;tag=abcd\r\n\
         To: <sip:bob@example.net>\r\n\
         Call-ID: trace@sipx\r\n\
         CSeq: 1 INVITE\r\n\
         Authorization: Digest response=\"secret\"\r\n\
         Content-Length: 0\r\n\r\n";
    let out = text(&redact(message).expect("the digest response is redacted"));

    for kept in [
        "z9hG4bKtrace",
        "Alice Example",
        "sip:alice@example.net",
        "sip:bob@example.net",
        "trace@sipx",
        "CSeq: 1 INVITE",
    ] {
        assert!(
            out.contains(kept),
            "redaction removed {kept}, which it needs: {out}"
        );
    }
    assert!(!out.contains("\"secret\""), "{out}");
}

/// A message with no secret in it is not copied at all, which is what keeps redaction off the
/// cost of an ordinary capture.
#[test]
fn a_message_with_no_credential_is_left_untouched() {
    let message = b"OPTIONS sip:example.net SIP/2.0\r\n\
         To: <sip:example.net>\r\n\
         Content-Length: 0\r\n\r\n";
    assert!(
        redact(message).is_none(),
        "nothing to redact must mean no copy"
    );
}

/// A `To` display name that happens to contain a parameter name must not be mangled: redaction
/// is by header *and* by parameter, not by substring.
#[test]
fn a_display_name_that_looks_like_a_parameter_survives() {
    let message = b"INVITE sip:bob@example.net SIP/2.0\r\n\
         From: \"response=me\" <sip:alice@example.net>\r\n\
         Content-Length: 0\r\n\r\n";
    assert!(
        redact(message).is_none(),
        "a From display name is not a credential-bearing header"
    );
}

/// Malformed input must be redacted too — it is exactly where a credential turns up somewhere
/// unexpected — and must not panic.
#[test]
fn a_truncated_message_is_redacted_without_panicking() {
    assert!(redact(b"").is_none());
    assert!(redact(b"\r\n").is_none());
    assert!(redact(b"Authorization: Digest response=").is_none());
    let partial = redact(b"Authorization: Digest response=\"abc")
        .expect("an unterminated quoted value is still a credential");
    assert!(!text(&partial).contains("abc"));
    // No trailing CRLF: the last line must still be processed.
    let no_crlf = redact(b"Authorization: Digest response=\"xyz\"").expect("redacted");
    assert!(!text(&no_crlf).contains("xyz"));
}

/// Join lines with CRLF and end the headers, so a fixture cannot accidentally indent a line and
/// thereby turn it into a folded continuation of the one above — which is a real SIP rule and was
/// how the first draft of these tests fooled itself.
fn message(lines: &[&str]) -> Vec<u8> {
    joined(lines, "\r\n")
}

/// The same, with a chosen terminator, for the spellings that are the point of the test.
fn joined(lines: &[&str], terminator: &str) -> Vec<u8> {
    let mut out = String::new();
    for line in lines {
        out.push_str(line);
        out.push_str(terminator);
    }
    out.push_str(terminator);
    out.into_bytes()
}

/// Legal spellings of the same header that a literal
/// `"authorization:"` prefix does not match, each of which carried a digest response into a
/// capture file in cleartext. Table-driven because the class is the point, not the cases — a new
/// spelling belongs here as a row.
#[test]
fn every_legal_spelling_of_a_credential_header_is_redacted() {
    const SECRET: &str = "SPELLINGSECRET0001";

    let folded = message(&[
        "REGISTER sip:example.net SIP/2.0",
        "Authorization: Digest username=\"alice\",",
        "\tresponse=\"SPELLINGSECRET0001\"",
        "Content-Length: 0",
    ]);
    let folded_mid_name = message(&[
        "REGISTER sip:example.net SIP/2.0",
        "Authorization: Digest respo",
        " nse=\"SPELLINGSECRET0001\"",
    ]);
    let space_before_colon = message(&[
        "REGISTER sip:example.net SIP/2.0",
        "Authorization : Digest response=\"SPELLINGSECRET0001\"",
    ]);
    let tab_before_colon = message(&[
        "REGISTER sip:example.net SIP/2.0",
        "Authorization\t: Digest response=\"SPELLINGSECRET0001\"",
    ]);
    let bare_lf = joined(
        &[
            "REGISTER sip:example.net SIP/2.0",
            "Authorization: Digest response=\"SPELLINGSECRET0001\"",
        ],
        "\n",
    );
    let bare_cr = joined(
        &[
            "REGISTER sip:example.net SIP/2.0",
            "Authorization: Digest response=\"SPELLINGSECRET0001\"",
        ],
        "\r",
    );
    let unterminated =
        b"REGISTER sip:example.net SIP/2.0\r\nAuthorization: Digest response=\"SPELLINGSECRET0001\"".to_vec();

    let cases: [(&str, &[u8]); 7] = [
        ("folded onto a continuation line (RFC 3261 §7.3.1)", &folded),
        (
            "folded in the middle of the parameter name",
            &folded_mid_name,
        ),
        (
            "whitespace before the colon, which HCOLON permits (§25.1)",
            &space_before_colon,
        ),
        ("a tab before the colon", &tab_before_colon),
        ("bare LF, which made the whole datagram one line", &bare_lf),
        ("bare CR", &bare_cr),
        ("no trailing terminator at all", &unterminated),
    ];

    for (spelling, raw) in cases {
        let redacted =
            redact(raw).unwrap_or_else(|| panic!("{spelling}: nothing was redacted at all"));
        let out = text(&redacted);
        assert!(
            !out.contains(SECRET),
            "{spelling}: the credential survived redaction: {out}"
        );
    }
}

/// A line whose name cannot be established is redacted conservatively rather than skipped.
///
/// The fail-safe half of the fix. "Unparseable" is exactly when a credential turns up somewhere
/// unexpected, so the absence of structure must not become the absence of redaction.
#[test]
fn a_line_with_no_header_name_is_redacted_conservatively() {
    let raw = message(&[
        "REGISTER sip:example.net SIP/2.0",
        "GARBAGE WITHOUT A COLON response=\"CONSERVATIVE0004\"",
    ]);
    let out = text(&redact(&raw).expect("a nameless line is still scanned"));
    assert!(!out.contains("CONSERVATIVE0004"), "{out}");
}

/// `key-params = key-param *(";" key-param)` (RFC 4568 §9.1), so one line can carry more
/// than one key, and a single-occurrence search left the second in the file.
#[test]
fn every_inline_key_on_a_crypto_line_is_redacted() {
    let raw = message(&[
        "INVITE sip:bob@example.net SIP/2.0",
        "Content-Length: 0",
        "",
        "v=0",
        "a=crypto:1 AES_CM_128_HMAC_SHA1_80 inline:FIRSTKEY0005aaaaaaaaaaaaaaaaaaaa|2^20|1;inline:SECONDKEY0006bbbbbbbbbbbbbbbbbbb|2^20|2",
    ]);
    let redacted = redact(&raw).expect("both keys are redacted");
    let out = text(&redacted);
    assert!(
        !out.contains("FIRSTKEY0005"),
        "the first key survived: {out}"
    );
    assert!(
        !out.contains("SECONDKEY0006"),
        "the second key survived: {out}"
    );
    assert!(out.contains("|2^20|1"), "the lifetime is not secret: {out}");
    assert!(out.contains("|2^20|2"), "{out}");
    assert_eq!(
        redacted.len(),
        raw.len(),
        "body redaction must preserve length"
    );
}

/// An opaque credential is the whole token, so there is no parameter to find (RFC 8898).
#[test]
fn an_opaque_scheme_has_its_whole_credential_removed() {
    for (scheme, secret) in [
        ("Bearer", "BEARERTOKEN0007"),
        ("bearer", "BEARERTOKEN0007"),
        ("Basic", "BASICSECRET0008"),
        // An unregistered scheme whose value carries no `=` can only be a token68.
        ("Weird", "WEIRDTOKEN0009"),
    ] {
        let raw = message(&[
            "REGISTER sip:example.net SIP/2.0",
            &format!("Authorization: {scheme} {secret}"),
        ]);
        let out =
            text(&redact(&raw).unwrap_or_else(|| panic!("{scheme} was not redacted at all")));
        assert!(!out.contains(secret), "{scheme}: {out}");
        // The scheme is kept: which scheme failed is the diagnosis.
        assert!(out.contains(scheme), "{scheme} should survive: {out}");
    }
}

/// A digest challenge still redacts by parameter rather than being read as an opaque token.
#[test]
fn a_digest_header_is_not_mistaken_for_an_opaque_credential() {
    let raw = message(&[
        "REGISTER sip:example.net SIP/2.0",
        "Authorization: Digest realm=\"example.net\", nonce=\"n\", response=\"DIGEST0010\"",
    ]);
    let out = text(&redact(&raw).expect("redacted"));
    assert!(!out.contains("DIGEST0010"), "{out}");
    assert!(out.contains("realm=\"example.net\""), "{out}");
    assert!(out.contains("nonce=\"n\""), "{out}");
}

/// SDP `k=` carries a key in cleartext (RFC 4566 §5.12). Deprecated, and still a key.
#[test]
fn an_sdp_key_field_is_redacted_but_prompt_is_not() {
    let raw = message(&[
        "INVITE sip:bob@example.net SIP/2.0",
        "",
        "v=0",
        "k=base64:SDPKEY0011aaaa",
    ]);
    let redacted = redact(&raw).expect("a k= key is redacted");
    let out = text(&redacted);
    assert!(!out.contains("SDPKEY0011"), "{out}");
    assert!(out.contains("k=base64:"), "the method is kept: {out}");
    assert_eq!(redacted.len(), raw.len(), "length preserved");

    let prompt = message(&["INVITE sip:bob@example.net SIP/2.0", "", "v=0", "k=prompt"]);
    assert!(
        redact(&prompt).is_none(),
        "k=prompt carries no key, so there is nothing to rewrite"
    );
}

/// A SIP message nested in a body (RFC 3420 `message/sipfrag`, or a multipart part) puts real
/// headers where the body scanner sees body lines.
#[test]
fn a_credential_nested_in_a_body_is_redacted() {
    let raw = message(&[
        "INVITE sip:bob@example.net SIP/2.0",
        "Content-Type: message/sipfrag",
        "",
        "REGISTER sip:inner SIP/2.0",
        "Authorization: Digest response=\"NESTEDSECRET0012\"",
    ]);
    let redacted = redact(&raw).expect("a nested credential is redacted");
    let out = text(&redacted);
    assert!(!out.contains("NESTEDSECRET0012"), "{out}");
    assert_eq!(
        redacted.len(),
        raw.len(),
        "a body stays the length Content-Length claims"
    );
}

/// A quoted-pair does not end the quoted string (RFC 3261 §25.1), so the tail after an escaped
/// quote is part of the value rather than something to leave behind.
#[test]
fn an_escaped_quote_inside_a_value_does_not_end_it() {
    let raw = message(&[
        "REGISTER sip:example.net SIP/2.0",
        "Authorization: Digest response=\"aaa\\\"TAIL0013\"",
    ]);
    let out = text(&redact(&raw).expect("redacted"));
    assert!(
        !out.contains("TAIL0013"),
        "the escaped tail survived: {out}"
    );
}

/// A message with nothing to hide is not copied, and is not marked as redacted.
///
/// `redact`'s own contract, and the thing that keeps redaction off the cost of an ordinary
/// capture: a folded `From` header must come back untouched rather than silently unfolded.
#[test]
fn a_message_with_no_credential_is_never_rewritten() {
    let folded = message(&[
        "INVITE sip:bob@example.net SIP/2.0",
        "From: \"Alice\"",
        " <sip:alice@example.net>;tag=abcd",
        "Subject: a response= that is not a parameter",
    ]);
    assert!(
        redact(&folded).is_none(),
        "nothing to redact must mean no copy, so a fold survives untouched"
    );
}

#[test]
fn a_header_name_is_matched_without_regard_to_case() {
    let out = text(
        &redact(b"AUTHORIZATION: Digest RESPONSE=\"secret\"\r\n\r\n")
            .expect("header and parameter names are case-insensitive"),
    );
    assert!(!out.contains("secret"), "{out}");
}

fn record(
    local: SocketAddress,
    peer: SocketAddress,
    transport: TransportKind,
    direction: Direction,
    bytes: &[u8],
    redacted: bool,
) -> Record {
    Record {
        seq: 1,
        at_nanos: 0,
        local,
        peer,
        local_text: b"local".to_vec(),
        peer_text: b"peer".to_vec(),
        transport,
        direction,
        bytes: bytes.to_vec(),
        redacted,
    }
}

fn v4(a: [u8; 4], port: u16) -> SocketAddress {
    SocketAddress::new(IpAddress::V4(a), port)
}

fn v6(last: u8, port: u16) -> SocketAddress {
    let mut a = [0u8; 16];
    a[0] = 0x20;
    a[1] = 0x01;
    a[2] = 0x0d;
    a[3] = 0xb8;
    a[15] = last;
    SocketAddress::new(IpAddress::V6(a), port)
}

#[test]
fn the_synthesised_ipv4_header_carries_a_valid_checksum() {
    let record = record(
        v4([192, 0, 2, 1], 5060),
        v4([192, 0, 2, 9], 5061),
        TransportKind::Udp,
        Direction::Out,
        b"OPTIONS sip:x SIP/2.0\r\n\r\n",
        false,
    );
    let packet = synthesise(&record);
    assert_eq!(packet[0], 0x45, "IPv4 with a twenty-byte header");
    assert_eq!(packet[9], 17);
    assert_eq!(
        ones_complement(&packet[..20]),
        0,
        "a header with a correct checksum sums to zero"
    );
    assert_eq!(&packet[20..22], &5060u16.to_be_bytes());
    assert_eq!(&packet[22..24], &5061u16.to_be_bytes());
    assert_eq!(&packet[28..], record.bytes.as_slice());
}

#[test]
fn an_inbound_message_goes_from_the_peer_to_this_endpoint() {
    let record = record(
        v4([192, 0, 2, 1], 5060),
        v4([192, 0, 2, 9], 5061),
        TransportKind::Tcp,
        Direction::In,
        b"x",
        false,
    );
    let packet = synthesise(&record);
    assert_eq!(packet[9], 17, "a UDP header whatever the transport; the comment says which");
    assert_eq!(&packet[12..16], &[192, 0, 2, 9], "from the peer");
    assert_eq!(&packet[16..20], &[192, 0, 2, 1], "to this endpoint");
    assert_eq!(packet.len(), 20 + 8 + 1);
    assert_eq!(ones_complement(&packet[..20]), 0);
}

#[test]
fn a_tls_record_says_it_was_decrypted_in_process() {
    let mut record = record(
        v4([192, 0, 2, 1], 5061),
        v4([192, 0, 2, 9], 5061),
        TransportKind::Tls,
        Direction::In,
        b"SIP/2.0 200 OK\r\n\r\n",
        true,
    );
    record.seq = 7;
    let comment = String::from_utf8(comment(&record)).expect("ascii");
    assert!(comment.contains("seq=7"), "{comment}");
    assert!(comment.contains("dir=in"), "{comment}");
    assert!(comment.contains("transport=TLS"), "{comment}");
    assert!(comment.contains("decrypted-in-process=yes"), "{comment}");
    assert!(comment.contains("redacted=yes"), "{comment}");
}

#[test]
fn ipv6_is_synthesised_as_ipv6() {
    let record = record(v6(1, 5060), v6(2, 5060), TransportKind::Udp, Direction::In, b"x", false);
    let packet = synthesise(&record);
    assert_eq!(packet[0] >> 4, 6, "version 6");
    assert_eq!(packet[6], 17, "next header");
    assert_eq!(packet.len(), 40 + 8 + 1);
}

#[test]
fn blocks_are_padded_to_four_bytes_and_carry_their_length_twice() {
    assert_eq!(padded(0), 0);
    assert_eq!(padded(1), 4);
    assert_eq!(padded(4), 4);
    assert_eq!(padded(5), 8);
    let b = block(6, b"abcde").expect("small enough");
    assert_eq!(b.len(), 12 + 8);
    assert_eq!(&b[0..4], &6u32.to_le_bytes());
    assert_eq!(&b[4..8], &20u32.to_le_bytes());
    assert_eq!(&b[16..20], &20u32.to_le_bytes());
    assert_eq!(&b[8..13], b"abcde");
    assert_eq!(&b[13..16], &[0, 0, 0]);
}

#[test]
fn the_section_header_starts_the_file() {
    let shb = section_header();
    assert_eq!(&shb[0..4], &0x0a0d_0d0au32.to_le_bytes());
    assert_eq!(&shb[8..12], &0x1a2b_3c4du32.to_le_bytes(), "byte-order magic");
    assert_eq!(shb.len() % 4, 0);
    let total = u32::from_le_bytes([shb[4], shb[5], shb[6], shb[7]]) as usize;
    assert_eq!(total % 4, 0);
    assert_eq!(&shb[total - 4..total], &shb[4..8], "the length is repeated at the end");
    let idb = &shb[total..];
    assert_eq!(&idb[0..4], &1u32.to_le_bytes(), "then one interface description");
    assert_eq!(&idb[8..10], &101u16.to_le_bytes(), "raw IP");
    assert_eq!(u32::from_le_bytes([idb[4], idb[5], idb[6], idb[7]]) as usize, idb.len());
}

#[test]
fn a_packet_block_is_an_enhanced_packet_block() {
    let record = record(
        v4([192, 0, 2, 1], 5060),
        v4([192, 0, 2, 9], 5061),
        TransportKind::Udp,
        Direction::Out,
        b"hello",
        false,
    );
    let b = packet_block(&record).expect("small enough");
    assert_eq!(&b[0..4], &6u32.to_le_bytes());
    assert_eq!(b.len() % 4, 0);
    let total = u32::from_le_bytes([b[4], b[5], b[6], b[7]]) as usize;
    assert_eq!(total, b.len());
}

#[test]
fn a_capture_redacts_unless_told_otherwise() {
    let config = CaptureConfig::new("/tmp/x.pcapng".to_owned());
    assert!(config.redact);
    assert_eq!(config.queue, 1024);
    let config = config.without_redaction();
    assert!(!config.redact);
    assert_eq!(config.path, "/tmp/x.pcapng");
    assert_eq!(Direction::In.as_str(), "in");
    assert_eq!(Direction::Out.token(), b"out".to_vec());
}

#[test]
fn each_record_takes_the_next_number_and_is_redacted_only_when_asked() {
    let local = SocketAddress::new(IpAddress::V4([192, 0, 2, 1]), 5060);
    let peer = SocketAddress::new(IpAddress::V4([192, 0, 2, 2]), 5062);
    let secret: &[u8] = b"REGISTER sip:a SIP/2.0\r\nAuthorization: Digest response=\"abc\"\r\n\r\n";
    let plain: &[u8] = b"OPTIONS sip:a SIP/2.0\r\n\r\n";

    let mut on = Recorder::new(true);
    let first = on.record(7, local, peer, b"l".to_vec(), b"p".to_vec(), TransportKind::Udp, Direction::In, secret);
    assert_eq!(first.seq, 1);
    assert!(first.redacted);
    assert_eq!(Some(first.bytes.clone()), redact(secret));
    assert_eq!(first.at_nanos, 7);
    let second = on.record(8, local, peer, Vec::new(), Vec::new(), TransportKind::Tcp, Direction::Out, plain);
    assert_eq!(second.seq, 2);
    assert!(!second.redacted);
    assert_eq!(second.bytes, plain.to_vec());

    let mut off = Recorder::new(false);
    let kept = off.record(9, local, peer, Vec::new(), Vec::new(), TransportKind::Udp, Direction::In, secret);
    assert_eq!(kept.seq, 1);
    assert!(!kept.redacted);
    assert_eq!(kept.bytes, secret.to_vec());

    let mut last = Recorder { seq: u64::MAX, redact: false };
    assert_eq!(last.record(0, local, peer, Vec::new(), Vec::new(), TransportKind::Udp, Direction::In, plain).seq, u64::MAX);
}
